//! Line-oriented Markdown structure: how a document's lines group into blocks.
//!
//! A pragmatic subset of CommonMark is recognised: ATX headings, fenced code blocks, block
//! quotes, list items, thematic breaks, HTML blocks and paragraphs. Headings, list items and
//! thematic breaks are recognised by regular expressions (the `regex` crate, see [`crate::rx`]).
//! Which lines are id-marker lines is the marker codec's answer and is handed in as one flag
//! per line.

use vstd::prelude::*;
use crate::block::{opt_str_view, strs_view};
use vstd::utf8::{char_is_scalar, encode_scalar, encode_utf8};
use crate::blockfile::inline_tag_pattern;
use crate::rx::{group_texts, is_match, regex_group_texts, regex_is_match};
use crate::text::{
    chars_eq, chars_of, copy_range, has_prefix_str, is_whitespace, is_ws, starts_with, str_eq,
    string_from, trim, trim_bounds, trim_start, trim_start_at, lines, line_spans, line_spans_exec,
    find_char_from, lemma_find_char_from, line_content_end, push_range, push_str,
};

verus! {

/// The structural kind of a block.
#[derive(Debug, Clone, Copy, PartialEq, Eq, Structural)]
pub enum BlockKind {
    Heading { level: usize },
    Paragraph,
    ListItem,
    CodeFence,
    Quote,
    ThematicBreak,
    Html,
}

// ---------------------------------------------------------------------------------------------
// The patterns.
// ---------------------------------------------------------------------------------------------

/// An ATX heading line; group 1 is the run of `#`, group 2 the heading text.
pub open spec fn heading_pattern() -> Seq<char> {
    "^(#{1,6})(?:\\s+(.*?))?\\s*#*\\s*$"@
}

/// A list item's first line.
pub open spec fn list_pattern() -> Seq<char> {
    "^(\\s*)([-*+]|\\d{1,9}[.)])\\s+\\S"@
}

/// A thematic break (`---`, `***` or `___`, spaces allowed).
pub open spec fn thematic_pattern() -> Seq<char> {
    "^\\s*(?:-\\s*){3,}$|^\\s*(?:\\*\\s*){3,}$|^\\s*(?:_\\s*){3,}$"@
}

fn heading_re() -> (r: &'static str)
    ensures
        r@ == heading_pattern(),
{
    "^(#{1,6})(?:\\s+(.*?))?\\s*#*\\s*$"
}

fn list_re() -> (r: &'static str)
    ensures
        r@ == list_pattern(),
{
    "^(\\s*)([-*+]|\\d{1,9}[.)])\\s+\\S"
}

fn thematic_re() -> (r: &'static str)
    ensures
        r@ == thematic_pattern(),
{
    "^\\s*(?:-\\s*){3,}$|^\\s*(?:\\*\\s*){3,}$|^\\s*(?:_\\s*){3,}$"
}

// ---------------------------------------------------------------------------------------------
// Line predicates.
// ---------------------------------------------------------------------------------------------

/// Whether a line is empty or all whitespace.
pub open spec fn is_blank_line(t: Seq<char>) -> bool {
    trim(t).len() == 0
}

pub open spec fn is_heading_line(t: Seq<char>) -> bool {
    regex_is_match(heading_pattern(), t) == Some(true)
}

pub open spec fn is_list_line(t: Seq<char>) -> bool {
    regex_is_match(list_pattern(), t) == Some(true)
}

pub open spec fn is_thematic_line(t: Seq<char>) -> bool {
    regex_is_match(thematic_pattern(), t) == Some(true)
}

/// A heading line's level: the length of the heading pattern's first group in its match.
pub open spec fn heading_level_of(t: Seq<char>) -> Option<nat> {
    match regex_group_texts(heading_pattern(), t, 1) {
        Some(v) => if v.len() > 0 {
            Some(
                match v[0] {
                    Some(g) => g.len(),
                    None => 0,
                },
            )
        } else {
            None
        },
        None => None,
    }
}

/// Whether the line, past its indentation, begins with `c`.
pub open spec fn opens_with(t: Seq<char>, c: char) -> bool {
    trim_start(t).len() > 0 && trim_start(t)[0] == c
}

/// The number of bytes `c` takes in UTF-8.
pub open spec fn utf8_width(c: char) -> nat {
    if (c as u32) < 0x80 {
        1
    } else if (c as u32) < 0x800 {
        2
    } else if (c as u32) < 0x10000 {
        3
    } else {
        4
    }
}

/// The indentation of a line, in bytes: the UTF-8 width of its leading whitespace.
pub open spec fn indent_width(t: Seq<char>) -> nat
    decreases t.len(),
{
    if t.len() > 0 && is_ws(t[0]) {
        utf8_width(t[0]) + indent_width(t.drop_first())
    } else {
        0
    }
}

/// The number of consecutive `c` in `u` from `i` on.
pub open spec fn run_len(u: Seq<char>, c: char, i: int) -> nat
    decreases u.len() - i,
{
    if 0 <= i < u.len() && u[i] == c {
        1 + run_len(u, c, i + 1)
    } else {
        0
    }
}

/// A code-fence line: the fence character, the fence length (at least three) and the
/// trimmed info string after it.
pub open spec fn fence_of(t: Seq<char>) -> Option<(char, nat, Seq<char>)> {
    let u = trim_start(t);
    if u.len() == 0 || (u[0] != '`' && u[0] != '~') {
        None
    } else {
        let n = run_len(u, u[0], 0);
        if n < 3 {
            None
        } else {
            Some((u[0], n, trim(u.skip(n as int))))
        }
    }
}

/// The index of the first whitespace character of `s` from `i` on, or `s.len()`.
pub open spec fn first_ws_from(s: Seq<char>, i: int) -> int
    decreases s.len() - i,
{
    if i < 0 || i >= s.len() {
        s.len() as int
    } else if is_ws(s[i]) {
        i
    } else {
        first_ws_from(s, i + 1)
    }
}

/// A fence's language: the first word of its (trimmed) info string, if there is one.
pub open spec fn fence_lang(info: Seq<char>) -> Option<Seq<char>> {
    if info.len() == 0 {
        None
    } else {
        Some(info.take(first_ws_from(info, 0)))
    }
}

/// Whether a line ends an open paragraph: a blank line, a marker line, or the first line of
/// a fence, heading, thematic break, list item or quote.
pub open spec fn interrupts(t: Seq<char>, marker: bool) -> bool {
    ||| is_blank_line(t)
    ||| marker
    ||| fence_of(t) is Some
    ||| is_heading_line(t)
    ||| is_thematic_line(t)
    ||| is_list_line(t)
    ||| opens_with(t, '>')
}

// ---------------------------------------------------------------------------------------------
// Where a block ends.
// ---------------------------------------------------------------------------------------------

/// The end (exclusive) of a code fence opened with `n` times `c`, scanning from line `j`: just
/// past the first closing fence (same character, at least as long, no info), else the end.
pub open spec fn fence_end(ls: Seq<Seq<char>>, c: char, n: nat, j: int) -> int
    decreases ls.len() - j,
{
    if j < 0 || j >= ls.len() {
        j
    } else {
        match fence_of(ls[j]) {
            Some(f) => if f.0 == c && f.1 >= n && f.2.len() == 0 {
                j + 1
            } else {
                fence_end(ls, c, n, j + 1)
            },
            None => fence_end(ls, c, n, j + 1),
        }
    }
}

/// The end of a list item indented by `indent` bytes: its continuation lines are the
/// non-blank lines indented deeper.
pub open spec fn list_end(ls: Seq<Seq<char>>, indent: nat, j: int) -> int
    decreases ls.len() - j,
{
    if j < 0 || j >= ls.len() || is_blank_line(ls[j]) || indent_width(ls[j]) <= indent {
        j
    } else {
        list_end(ls, indent, j + 1)
    }
}

/// The end of a block quote: the following non-blank lines that open with `>`.
pub open spec fn quote_end(ls: Seq<Seq<char>>, j: int) -> int
    decreases ls.len() - j,
{
    if 0 <= j < ls.len() && !is_blank_line(ls[j]) && opens_with(ls[j], '>') {
        quote_end(ls, j + 1)
    } else {
        j
    }
}

/// The end of an HTML block: the following non-blank lines that are not marker lines.
pub open spec fn html_end(ls: Seq<Seq<char>>, mk: Seq<bool>, j: int) -> int
    decreases ls.len() - j,
{
    if 0 <= j < ls.len() && !is_blank_line(ls[j]) && !mk[j] {
        html_end(ls, mk, j + 1)
    } else {
        j
    }
}

/// The end of a paragraph: the following lines that do not interrupt it.
pub open spec fn para_end(ls: Seq<Seq<char>>, mk: Seq<bool>, j: int) -> int
    decreases ls.len() - j,
{
    if 0 <= j < ls.len() && !interrupts(ls[j], mk[j]) {
        para_end(ls, mk, j + 1)
    } else {
        j
    }
}

/// The kind, fence language and end line (exclusive) of the block starting at line `start`.
pub open spec fn classify_of(ls: Seq<Seq<char>>, mk: Seq<bool>, start: int) -> (
    BlockKind,
    Option<Seq<char>>,
    int,
) {
    let t = ls[start];
    match fence_of(t) {
        Some(f) => (BlockKind::CodeFence, fence_lang(f.2), fence_end(ls, f.0, f.1, start + 1)),
        None => match heading_level_of(t) {
            Some(level) => (BlockKind::Heading { level: level as usize }, None, start + 1),
            None => if is_thematic_line(t) {
                (BlockKind::ThematicBreak, None, start + 1)
            } else if is_list_line(t) {
                (BlockKind::ListItem, None, list_end(ls, indent_width(t), start + 1))
            } else if opens_with(t, '>') {
                (BlockKind::Quote, None, quote_end(ls, start + 1))
            } else if opens_with(t, '<') {
                (BlockKind::Html, None, html_end(ls, mk, start + 1))
            } else {
                (BlockKind::Paragraph, None, para_end(ls, mk, start + 1))
            },
        },
    }
}

// ---------------------------------------------------------------------------------------------
// Executable line predicates.
// ---------------------------------------------------------------------------------------------

/// The number of bytes `c` takes in UTF-8.
fn char_width(c: char) -> (r: usize)
    ensures
        r == utf8_width(c),
        r <= 4,
{
    let u = c as u32;
    if u < 0x80 {
        1
    } else if u < 0x800 {
        2
    } else if u < 0x10000 {
        3
    } else {
        4
    }
}

/// The indentation of `t`, in bytes.
fn indent_of(t: &Vec<char>) -> (r: usize)
    requires
        t@.len() <= usize::MAX / 4,
    ensures
        r == indent_width(t@),
{
    let mut i: usize = 0;
    let mut w: usize = 0;
    assert(t@.skip(0) =~= t@);
    while i < t.len() && is_whitespace(t[i])
        invariant
            i <= t@.len() <= usize::MAX / 4,
            w <= 4 * i,
            indent_width(t@) == w + indent_width(t@.skip(i as int)),
        decreases t.len() - i,
    {
        assert(t@.skip(i as int).drop_first() =~= t@.skip(i + 1));
        w = w + char_width(t[i]);
        i += 1;
    }
    if i < t.len() {
        assert(t@.skip(i as int)[0] == t@[i as int]);
    } else {
        assert(t@.skip(i as int).len() == 0);
    }
    w
}

/// Whether `t` is empty or all whitespace.
fn blank(t: &Vec<char>) -> (r: bool)
    ensures
        r == is_blank_line(t@),
{
    let (a, b) = trim_bounds(t, 0, t.len());
    assert(t@.subrange(0, t@.len() as int) =~= t@);
    a == b
}

/// Whether `t`, past its indentation, begins with `c`.
fn opens(t: &Vec<char>, c: char) -> (r: bool)
    ensures
        r == opens_with(t@, c),
{
    let a = trim_start_at(t, 0, t.len());
    assert(t@.subrange(0, t@.len() as int) =~= t@);
    a < t.len() && t[a] == c
}

/// The fence character, fence length and trimmed info string of a code-fence line.
fn fence_marker(t: &Vec<char>) -> (r: Option<(char, usize, Vec<char>)>)
    ensures
        match r {
            Some(f) => fence_of(t@) == Some((f.0, f.1 as nat, f.2@)),
            None => fence_of(t@) is None,
        },
{
    let ghost u = trim_start(t@);
    let a = trim_start_at(t, 0, t.len());
    assert(t@.subrange(0, t@.len() as int) =~= t@);
    if a == t.len() {
        return None;
    }
    let c = t[a];
    if c != '`' && c != '~' {
        return None;
    }
    let mut j = a;
    while j < t.len() && t[j] == c
        invariant
            a <= j <= t@.len(),
            u == t@.subrange(a as int, t@.len() as int),
            run_len(u, c, 0) == (j - a) + run_len(u, c, j - a),
        decreases t.len() - j,
    {
        j += 1;
    }
    let n = j - a;
    if n < 3 {
        return None;
    }
    let (lo, hi) = trim_bounds(t, j, t.len());
    let info = copy_range(t, lo, hi);
    assert(u.skip(n as int) =~= t@.subrange(j as int, t@.len() as int));
    Some((c, n, info))
}

/// The index of the first whitespace character of `s`, or its length.
fn first_ws(s: &Vec<char>) -> (r: usize)
    ensures
        r == first_ws_from(s@, 0),
        r <= s@.len(),
{
    let mut i: usize = 0;
    while i < s.len() && !is_whitespace(s[i])
        invariant
            i <= s@.len(),
            first_ws_from(s@, 0) == first_ws_from(s@, i as int),
        decreases s.len() - i,
    {
        i += 1;
    }
    i
}

/// The level of a heading line (the heading pattern's first group), if it is one.
fn heading_level(t: &str) -> (r: Option<usize>)
    ensures
        match r {
            Some(l) => heading_level_of(t@) == Some(l as nat),
            None => heading_level_of(t@) is None,
        },
{
    match group_texts(heading_re(), t, 1) {
        Some(v) => {
            if v.len() > 0 {
                match &v[0] {
                    Some(g) => Some(chars_of(g.as_str()).len()),
                    None => Some(0),
                }
            } else {
                None
            }
        },
        None => None,
    }
}

fn heading_line(t: &str) -> (r: bool)
    ensures
        r == is_heading_line(t@),
{
    is_match(heading_re(), t) == Some(true)
}

fn list_line(t: &str) -> (r: bool)
    ensures
        r == is_list_line(t@),
{
    is_match(list_re(), t) == Some(true)
}

fn thematic_line(t: &str) -> (r: bool)
    ensures
        r == is_thematic_line(t@),
{
    is_match(thematic_re(), t) == Some(true)
}

/// Whether the line `t` (with marker flag `marker`) ends an open paragraph.
fn interrupts_line(t: &str, marker: bool) -> (r: bool)
    ensures
        r == interrupts(t@, marker),
{
    let cs = chars_of(t);
    blank(&cs) || marker || fence_marker(&cs).is_some() || heading_line(t) || thematic_line(t)
        || list_line(t) || opens(&cs, '>')
}

/// Whether the line `t` closes a fence opened with `n` times `c`.
fn closes_fence(t: &str, c: char, n: usize) -> (r: bool)
    ensures
        r == match fence_of(t@) {
            Some(f) => f.0 == c && f.1 >= n && f.2.len() == 0,
            None => false,
        },
{
    let cs = chars_of(t);
    match fence_marker(&cs) {
        Some((c2, n2, rest)) => c2 == c && n2 >= n && rest.len() == 0,
        None => false,
    }
}

/// Whether the line `t` continues a list item indented by `indent` bytes.
fn continues_list(t: &str, indent: usize) -> (r: bool)
    requires
        t@.len() <= usize::MAX / 4,
    ensures
        r == (!is_blank_line(t@) && indent_width(t@) > indent),
{
    let cs = chars_of(t);
    !blank(&cs) && indent_of(&cs) > indent
}

/// Whether the line `t` continues a block quote.
fn continues_quote(t: &str) -> (r: bool)
    ensures
        r == (!is_blank_line(t@) && opens_with(t@, '>')),
{
    let cs = chars_of(t);
    !blank(&cs) && opens(&cs, '>')
}

/// Whether the line `t` (with marker flag `marker`) continues an HTML block.
fn continues_html(t: &str, marker: bool) -> (r: bool)
    ensures
        r == (!is_blank_line(t@) && !marker),
{
    let cs = chars_of(t);
    !blank(&cs) && !marker
}

// ---------------------------------------------------------------------------------------------
// Classification.
// ---------------------------------------------------------------------------------------------

/// Whether every line is short enough that its indentation, in bytes, fits in a `usize`.
pub open spec fn lines_fit(lines: Seq<String>) -> bool {
    forall|k: int| 0 <= k < lines.len() ==> (#[trigger] lines[k])@.len() <= usize::MAX / 4
}

/// The kind, fence language and end line (exclusive) of the block whose first line is
/// `lines[start]`; `markers[j]` says whether line `j` is an id-marker line.
pub fn classify(lines: &Vec<String>, markers: &Vec<bool>, start: usize) -> (r: (
    BlockKind,
    Option<String>,
    usize,
))
    requires
        start < lines@.len(),
        markers@.len() == lines@.len(),
        lines_fit(lines@),
    ensures
        (r.0, opt_str_view(r.1), r.2 as int) == classify_of(strs_view(lines@), markers@, start as int),
        start < r.2 <= lines@.len(),
{
    let ghost ls = strs_view(lines@);
    let ghost mk = markers@;
    assert(ls[start as int] == lines@[start as int]@);
    let text = lines[start].as_str();
    let t = chars_of(text);
    let n_lines = lines.len();
    if let Some((c, n, info)) = fence_marker(&t) {
        let mut j = start + 1;
        while j < n_lines && !closes_fence(lines[j].as_str(), c, n)
            invariant
                start + 1 <= j <= n_lines == lines@.len() == ls.len(),
                ls == strs_view(lines@),
                fence_end(ls, c, n as nat, start + 1) == fence_end(ls, c, n as nat, j as int),
            decreases n_lines - j,
        {
            assert(ls[j as int] == lines@[j as int]@);
            j += 1;
        }
        if j < n_lines {
            assert(ls[j as int] == lines@[j as int]@);
            j += 1;
        }
        let lang = if info.len() == 0 {
            None
        } else {
            let k = first_ws(&info);
            Some(string_from(&copy_range(&info, 0, k)))
        };
        return (BlockKind::CodeFence, lang, j);
    }
    if let Some(level) = heading_level(text) {
        return (BlockKind::Heading { level }, None, start + 1);
    }
    if thematic_line(text) {
        return (BlockKind::ThematicBreak, None, start + 1);
    }
    if list_line(text) {
        let indent = indent_of(&t);
        let mut j = start + 1;
        while j < n_lines && continues_list(lines[j].as_str(), indent)
            invariant
                start + 1 <= j <= n_lines == lines@.len() == ls.len(),
                ls == strs_view(lines@),
                lines_fit(lines@),
                list_end(ls, indent as nat, start + 1) == list_end(ls, indent as nat, j as int),
            decreases n_lines - j,
        {
            assert(ls[j as int] == lines@[j as int]@);
            j += 1;
        }
        if j < n_lines {
            assert(ls[j as int] == lines@[j as int]@);
        }
        return (BlockKind::ListItem, None, j);
    }
    if opens(&t, '>') {
        let mut j = start + 1;
        while j < n_lines && continues_quote(lines[j].as_str())
            invariant
                start + 1 <= j <= n_lines == lines@.len() == ls.len(),
                ls == strs_view(lines@),
                quote_end(ls, start + 1) == quote_end(ls, j as int),
            decreases n_lines - j,
        {
            assert(ls[j as int] == lines@[j as int]@);
            j += 1;
        }
        if j < n_lines {
            assert(ls[j as int] == lines@[j as int]@);
        }
        return (BlockKind::Quote, None, j);
    }
    if opens(&t, '<') {
        let mut j = start + 1;
        while j < n_lines && continues_html(lines[j].as_str(), markers[j])
            invariant
                start + 1 <= j <= n_lines == lines@.len() == ls.len() == mk.len(),
                ls == strs_view(lines@),
                mk == markers@,
                html_end(ls, mk, start + 1) == html_end(ls, mk, j as int),
            decreases n_lines - j,
        {
            assert(ls[j as int] == lines@[j as int]@);
            j += 1;
        }
        if j < n_lines {
            assert(ls[j as int] == lines@[j as int]@);
        }
        return (BlockKind::Html, None, j);
    }
    let mut j = start + 1;
    while j < n_lines && !interrupts_line(lines[j].as_str(), markers[j])
        invariant
            start + 1 <= j <= n_lines == lines@.len() == ls.len() == mk.len(),
            ls == strs_view(lines@),
            mk == markers@,
            para_end(ls, mk, start + 1) == para_end(ls, mk, j as int),
        decreases n_lines - j,
    {
        assert(ls[j as int] == lines@[j as int]@);
        j += 1;
    }
    if j < n_lines {
        assert(ls[j as int] == lines@[j as int]@);
    }
    (BlockKind::Paragraph, None, j)
}

// ---------------------------------------------------------------------------------------------
// Blocks of a document.
// ---------------------------------------------------------------------------------------------

proof fn lemma_fence_end(ls: Seq<Seq<char>>, c: char, n: nat, j: int)
    requires
        0 <= j <= ls.len(),
    ensures
        j <= fence_end(ls, c, n, j) <= ls.len(),
    decreases ls.len() - j,
{
    if j < ls.len() {
        lemma_fence_end(ls, c, n, j + 1);
    }
}

proof fn lemma_list_end(ls: Seq<Seq<char>>, indent: nat, j: int)
    requires
        0 <= j <= ls.len(),
    ensures
        j <= list_end(ls, indent, j) <= ls.len(),
    decreases ls.len() - j,
{
    if j < ls.len() {
        lemma_list_end(ls, indent, j + 1);
    }
}

proof fn lemma_quote_end(ls: Seq<Seq<char>>, j: int)
    requires
        0 <= j <= ls.len(),
    ensures
        j <= quote_end(ls, j) <= ls.len(),
    decreases ls.len() - j,
{
    if j < ls.len() {
        lemma_quote_end(ls, j + 1);
    }
}

proof fn lemma_html_end(ls: Seq<Seq<char>>, mk: Seq<bool>, j: int)
    requires
        0 <= j <= ls.len(),
    ensures
        j <= html_end(ls, mk, j) <= ls.len(),
    decreases ls.len() - j,
{
    if j < ls.len() {
        lemma_html_end(ls, mk, j + 1);
    }
}

proof fn lemma_para_end(ls: Seq<Seq<char>>, mk: Seq<bool>, j: int)
    requires
        0 <= j <= ls.len(),
    ensures
        j <= para_end(ls, mk, j) <= ls.len(),
    decreases ls.len() - j,
{
    if j < ls.len() {
        lemma_para_end(ls, mk, j + 1);
    }
}

/// A block starting at line `start` ends after it and no later than the last line.
pub proof fn lemma_classify_end(ls: Seq<Seq<char>>, mk: Seq<bool>, start: int)
    requires
        0 <= start < ls.len(),
    ensures
        start < classify_of(ls, mk, start).2 <= ls.len(),
{
    let t = ls[start];
    match fence_of(t) {
        Some(f) => lemma_fence_end(ls, f.0, f.1, start + 1),
        None => {
            lemma_list_end(ls, indent_width(t), start + 1);
            lemma_quote_end(ls, start + 1);
            lemma_html_end(ls, mk, start + 1);
            lemma_para_end(ls, mk, start + 1);
        },
    }
}

/// A block as plain values: kind, fence language, first line, end line (exclusive) and the
/// line of the id marker that precedes it, if any.
pub type SectionView = (BlockKind, Option<Seq<char>>, int, int, Option<int>);

/// The blocks of lines `i..`, given that the id marker on line `pending` (if any) has not yet
/// been bound: blank lines are skipped, a marker line is held for the next block, and every
/// other line starts a block that runs to where [`classify_of`] ends it.
pub open spec fn sections_of(ls: Seq<Seq<char>>, mk: Seq<bool>, i: int, pending: Option<int>) -> Seq<
    SectionView,
>
    decreases ls.len() - i,
    via sections_of_decreases
{
    if i < 0 || i >= ls.len() {
        seq![]
    } else if is_blank_line(ls[i]) {
        sections_of(ls, mk, i + 1, pending)
    } else if mk[i] {
        sections_of(ls, mk, i + 1, Some(i))
    } else {
        let c = classify_of(ls, mk, i);
        seq![(c.0, c.1, i, c.2, pending)] + sections_of(ls, mk, c.2, None)
    }
}

#[via_fn]
proof fn sections_of_decreases(ls: Seq<Seq<char>>, mk: Seq<bool>, i: int, pending: Option<int>) {
    if 0 <= i < ls.len() {
        lemma_classify_end(ls, mk, i);
    }
}

/// A block of a document: its kind, fence language, first line, end line (exclusive), and
/// the line of the id marker bound to it, if one preceded it.
#[derive(Debug, Clone, PartialEq, Eq)]
pub struct Section {
    pub kind: BlockKind,
    pub lang: Option<String>,
    pub start: usize,
    pub end: usize,
    pub marker: Option<usize>,
}

pub open spec fn section_view(s: Section) -> SectionView {
    (
        s.kind,
        opt_str_view(s.lang),
        s.start as int,
        s.end as int,
        match s.marker {
            Some(m) => Some(m as int),
            None => None,
        },
    )
}

pub open spec fn sections_view(v: Seq<Section>) -> Seq<SectionView> {
    v.map_values(|s: Section| section_view(s))
}

/// The blocks of `lines[from..]` (see [`sections_of`]); `markers[j]` says whether line `j` is
/// an id-marker line.
pub fn sections(lines: &Vec<String>, markers: &Vec<bool>, from: usize) -> (r: Vec<Section>)
    requires
        from <= lines@.len(),
        markers@.len() == lines@.len(),
        lines_fit(lines@),
    ensures
        sections_view(r@) == sections_of(strs_view(lines@), markers@, from as int, None),
{
    let ghost ls = strs_view(lines@);
    let ghost mk = markers@;
    let mut out: Vec<Section> = Vec::new();
    let mut pending: Option<usize> = None;
    let mut i = from;
    while i < lines.len()
        invariant
            from <= i <= lines@.len() == ls.len() == mk.len(),
            ls == strs_view(lines@),
            mk == markers@,
            lines_fit(lines@),
            pending matches Some(p) ==> p < i,
            sections_view(out@) + sections_of(
                ls,
                mk,
                i as int,
                match pending {
                    Some(p) => Some(p as int),
                    None => None,
                },
            ) == sections_of(ls, mk, from as int, None),
        decreases lines@.len() - i,
    {
        let ghost pend = match pending {
            Some(p) => Some(p as int),
            None => None,
        };
        assert(ls[i as int] == lines@[i as int]@);
        let cs = chars_of(lines[i].as_str());
        if blank(&cs) {
            i += 1;
        } else if markers[i] {
            pending = Some(i);
            i += 1;
        } else {
            let (kind, lang, end) = classify(lines, markers, i);
            let sec = Section { kind, lang, start: i, end, marker: pending };
            let ghost before = sections_view(out@);
            out.push(sec);
            assert(sections_view(out@) =~= before.push(section_view(sec)));
            assert(section_view(sec) == (kind, opt_str_view(lang), i as int, end as int, pend));
            assert(before.push(section_view(sec)) + sections_of(ls, mk, end as int, None) =~= before
                + (seq![section_view(sec)] + sections_of(ls, mk, end as int, None)));
            pending = None;
            i = end;
        }
    }
    assert(sections_of(
        ls,
        mk,
        i as int,
        match pending {
            Some(p) => Some(p as int),
            None => None,
        },
    ) =~= Seq::<SectionView>::empty());
    assert(sections_view(out@) + Seq::<SectionView>::empty() =~= sections_view(out@));
    out
}

// ---------------------------------------------------------------------------------------------
// Frontmatter.
// ---------------------------------------------------------------------------------------------

/// The sets of characters that frontmatter tag parsing strips or splits at.
#[derive(Debug, Clone, Copy, PartialEq, Eq, Structural)]
pub enum CharClass {
    /// Quotes and `#`, trimmed off a tag.
    TagMark,
    /// `[`.
    Open,
    /// `]`.
    Close,
    /// `,`.
    Comma,
    /// `,` or whitespace.
    CommaOrSpace,
}

pub open spec fn class_has(k: CharClass, c: char) -> bool {
    match k {
        CharClass::TagMark => c == '"' || c == '\'' || c == '#',
        CharClass::Open => c == '[',
        CharClass::Close => c == ']',
        CharClass::Comma => c == ',',
        CharClass::CommaOrSpace => c == ',' || is_ws(c),
    }
}

/// The index of the first `c` in `s[i..]` of class `f`, or `s.len()`.
pub open spec fn find_by(s: Seq<char>, f: CharClass, i: int) -> int
    decreases s.len() - i,
{
    if i < 0 || i >= s.len() {
        s.len() as int
    } else if class_has(f, s[i]) {
        i
    } else {
        find_by(s, f, i + 1)
    }
}

proof fn lemma_find_by(s: Seq<char>, f: CharClass, i: int)
    requires
        0 <= i <= s.len(),
    ensures
        i <= find_by(s, f, i) <= s.len(),
    decreases s.len() - i,
{
    if i < s.len() && !class_has(f, s[i]) {
        lemma_find_by(s, f, i + 1);
    }
}

/// `s` without the leading characters of class `f`.
pub open spec fn strip_start_by(s: Seq<char>, f: CharClass) -> Seq<char>
    decreases s.len(),
{
    if s.len() > 0 && class_has(f, s[0]) {
        strip_start_by(s.drop_first(), f)
    } else {
        s
    }
}

/// `s` without the trailing characters of class `f`.
pub open spec fn strip_end_by(s: Seq<char>, f: CharClass) -> Seq<char>
    decreases s.len(),
{
    if s.len() > 0 && class_has(f, s.last()) {
        strip_end_by(s.drop_last(), f)
    } else {
        s
    }
}

/// A raw frontmatter tag as kept: trimmed, without surrounding quotes or `#`, trimmed again.
pub open spec fn clean_tag(raw: Seq<char>) -> Seq<char> {
    trim(strip_end_by(strip_start_by(trim(raw), CharClass::TagMark), CharClass::TagMark))
}

/// `tags` with the cleaned `raw` appended, unless it is empty or already there.
pub open spec fn push_tag_of(tags: Seq<Seq<char>>, raw: Seq<char>) -> Seq<Seq<char>> {
    let t = clean_tag(raw);
    if t.len() > 0 && !tags.contains(t) {
        tags.push(t)
    } else {
        tags
    }
}

/// `tags` with each piece of `s[i..]` (split at the characters of class `f`) pushed.
pub open spec fn push_split_from(tags: Seq<Seq<char>>, s: Seq<char>, f: CharClass, i: int) -> Seq<
    Seq<char>,
>
    decreases s.len() - i,
    via push_split_from_decreases
{
    if i < 0 || i > s.len() {
        tags
    } else {
        let k = find_by(s, f, i);
        let t2 = push_tag_of(tags, s.subrange(i, k));
        if k >= s.len() {
            t2
        } else {
            push_split_from(t2, s, f, k + 1)
        }
    }
}

#[via_fn]
proof fn push_split_from_decreases(tags: Seq<Seq<char>>, s: Seq<char>, f: CharClass, i: int) {
    if 0 <= i <= s.len() {
        lemma_find_by(s, f, i);
    }
}

/// A frontmatter delimiter line closing the block.
pub open spec fn is_fm_close(t: Seq<char>) -> bool {
    trim(t) == "---"@ || trim(t) == "..."@
}

/// The first closing delimiter line at or after `j`, or `ls.len()`.
pub open spec fn fm_close(ls: Seq<Seq<char>>, j: int) -> int
    decreases ls.len() - j,
{
    if j < 0 || j >= ls.len() {
        ls.len() as int
    } else if is_fm_close(ls[j]) {
        j
    } else {
        fm_close(ls, j + 1)
    }
}

/// The end (exclusive, at most `hi`) of a YAML block list starting at line `j`: its `- tag`
/// items and blank lines.
pub open spec fn item_list_end(ls: Seq<Seq<char>>, j: int, hi: int) -> int
    decreases hi - j,
{
    if j < 0 || j >= hi || j >= ls.len() {
        j
    } else if starts_with(trim_start(ls[j]), "- "@) || trim_start(ls[j]).len() == 0 {
        item_list_end(ls, j + 1, hi)
    } else {
        j
    }
}

/// `tags` with the items of the block list at lines `j..hi` pushed.
pub open spec fn push_items(tags: Seq<Seq<char>>, ls: Seq<Seq<char>>, j: int, hi: int) -> Seq<Seq<char>>
    decreases hi - j,
{
    if j < 0 || j >= hi || j >= ls.len() {
        tags
    } else if starts_with(trim_start(ls[j]), "- "@) {
        push_items(push_tag_of(tags, trim_start(ls[j]).skip(2)), ls, j + 1, hi)
    } else {
        push_items(tags, ls, j + 1, hi)
    }
}

proof fn lemma_item_list_end(ls: Seq<Seq<char>>, j: int, hi: int)
    requires
        0 <= j <= hi,
    ensures
        j <= item_list_end(ls, j, hi) <= hi,
    decreases hi - j,
{
    if j < hi && j < ls.len() {
        lemma_item_list_end(ls, j + 1, hi);
    }
}

/// The tags declared by the frontmatter lines `i..hi`: `tags: [a, b]`, `tags: a b` (or
/// comma-separated) and the block-list form with one `- tag` per line.
pub open spec fn fm_tags_of(tags: Seq<Seq<char>>, ls: Seq<Seq<char>>, i: int, hi: int) -> Seq<Seq<char>>
    decreases hi - i,
    via fm_tags_of_decreases
{
    if i < 0 || i >= hi || i >= ls.len() {
        tags
    } else {
        let tr = trim_start(ls[i]);
        if starts_with(tr, "tags:"@) {
            let rest = trim(tr.skip(5));
            if rest.len() > 0 && rest[0] == '[' {
                let inner = strip_end_by(strip_start_by(rest, CharClass::Open), CharClass::Close);
                fm_tags_of(push_split_from(tags, inner, CharClass::Comma, 0), ls, i + 1, hi)
            } else if rest.len() > 0 {
                fm_tags_of(push_split_from(tags, rest, CharClass::CommaOrSpace, 0), ls, i + 1, hi)
            } else {
                let j = item_list_end(ls, i + 1, hi);
                fm_tags_of(push_items(tags, ls, i + 1, j), ls, j, hi)
            }
        } else {
            fm_tags_of(tags, ls, i + 1, hi)
        }
    }
}

#[via_fn]
proof fn fm_tags_of_decreases(tags: Seq<Seq<char>>, ls: Seq<Seq<char>>, i: int, hi: int) {
    if 0 <= i < hi {
        lemma_item_list_end(ls, i + 1, hi);
    }
}

/// A document's frontmatter: when its first line is `---` and a later line closes the block,
/// the index of that closing line and the tags declared in between.
pub open spec fn frontmatter_of(ls: Seq<Seq<char>>) -> Option<(int, Seq<Seq<char>>)> {
    if ls.len() == 0 || trim(ls[0]) != "---"@ {
        None
    } else {
        let j = fm_close(ls, 1);
        if j >= ls.len() {
            None
        } else {
            Some((j, fm_tags_of(seq![], ls, 1, j)))
        }
    }
}

fn in_class(k: CharClass, c: char) -> (r: bool)
    ensures
        r == class_has(k, c),
{
    match k {
        CharClass::TagMark => c == '"' || c == '\'' || c == '#',
        CharClass::Open => c == '[',
        CharClass::Close => c == ']',
        CharClass::Comma => c == ',',
        CharClass::CommaOrSpace => c == ',' || is_whitespace(c),
    }
}

fn find_in(s: &Vec<char>, k: CharClass, i: usize) -> (r: usize)
    requires
        i <= s@.len(),
    ensures
        r == find_by(s@, k, i as int),
        i <= r <= s@.len(),
{
    let mut j = i;
    while j < s.len() && !in_class(k, s[j])
        invariant
            i <= j <= s@.len(),
            find_by(s@, k, i as int) == find_by(s@, k, j as int),
        decreases s.len() - j,
    {
        j += 1;
    }
    j
}

/// `s` without its leading characters of class `lead` and then its trailing ones of `trail`.
fn strip_by(s: &Vec<char>, lead: CharClass, trail: CharClass) -> (r: Vec<char>)
    ensures
        r@ == strip_end_by(strip_start_by(s@, lead), trail),
{
    let mut lo: usize = 0;
    assert(s@.subrange(0, s@.len() as int) =~= s@);
    while lo < s.len() && in_class(lead, s[lo])
        invariant
            lo <= s@.len(),
            strip_start_by(s@, lead) == strip_start_by(s@.subrange(lo as int, s@.len() as int), lead),
        decreases s.len() - lo,
    {
        assert(s@.subrange(lo as int, s@.len() as int).drop_first() =~= s@.subrange(
            lo + 1,
            s@.len() as int,
        ));
        lo += 1;
    }
    let ghost u = s@.subrange(lo as int, s@.len() as int);
    assert(strip_start_by(s@, lead) == u);
    let mut hi = s.len();
    while hi > lo && in_class(trail, s[hi - 1])
        invariant
            lo <= hi <= s@.len(),
            u == s@.subrange(lo as int, s@.len() as int),
            strip_end_by(u, trail) == strip_end_by(s@.subrange(lo as int, hi as int), trail),
        decreases hi,
    {
        assert(s@.subrange(lo as int, hi as int).drop_last() =~= s@.subrange(lo as int, hi - 1));
        hi -= 1;
    }
    copy_range(s, lo, hi)
}

/// `trim(s)`, as a new vector.
fn trimmed(s: &Vec<char>) -> (r: Vec<char>)
    ensures
        r@ == trim(s@),
{
    let (a, b) = trim_bounds(s, 0, s.len());
    assert(s@.subrange(0, s@.len() as int) =~= s@);
    copy_range(s, a, b)
}

/// Whether `t` is among `tags`.
fn has_tag(tags: &Vec<String>, t: &Vec<char>) -> (r: bool)
    ensures
        r == strs_view(tags@).contains(t@),
{
    let mut k: usize = 0;
    while k < tags.len()
        invariant
            k <= tags@.len(),
            forall|m: int| 0 <= m < k ==> strs_view(tags@)[m] != t@,
        decreases tags.len() - k,
    {
        let cs = chars_of(tags[k].as_str());
        if chars_eq(&cs, t) {
            assert(strs_view(tags@)[k as int] == t@);
            return true;
        }
        k += 1;
    }
    assert(!strs_view(tags@).contains(t@)) by {
        if strs_view(tags@).contains(t@) {
            let m = choose|m: int| 0 <= m < strs_view(tags@).len() && strs_view(tags@)[m] == t@;
            assert(strs_view(tags@)[m] != t@);
        }
    }
    false
}

/// Appends the cleaned `raw` to `tags` unless it is empty or already there.
fn push_tag(tags: &mut Vec<String>, raw: &Vec<char>)
    ensures
        strs_view(final(tags)@) == push_tag_of(strs_view(old(tags)@), raw@),
{
    let t1 = trimmed(raw);
    let t2 = strip_by(&t1, CharClass::TagMark, CharClass::TagMark);
    let t = trimmed(&t2);
    if t.len() > 0 && !has_tag(tags, &t) {
        let ghost before = strs_view(tags@);
        tags.push(string_from(&t));
        assert(strs_view(tags@) =~= before.push(t@));
    }
}

/// Pushes each piece of `s` (split at the characters of class `k`) as a tag.
fn push_split(tags: &mut Vec<String>, s: &Vec<char>, k: CharClass)
    ensures
        strs_view(final(tags)@) == push_split_from(strs_view(old(tags)@), s@, k, 0),
{
    let ghost target = push_split_from(strs_view(tags@), s@, k, 0);
    let mut i: usize = 0;
    let mut done = false;
    while !done
        invariant
            i <= s@.len(),
            !done ==> target == push_split_from(strs_view(tags@), s@, k, i as int),
            done ==> target == strs_view(tags@),
        decreases s@.len() - i + (if done { 0int } else { 1int }),
    {
        let e = find_in(s, k, i);
        let piece = copy_range(s, i, e);
        push_tag(tags, &piece);
        if e >= s.len() {
            done = true;
        } else {
            i = e + 1;
        }
    }
}

/// Whether line `t` is a block-list item (`- tag`) or blank, as frontmatter sees it.
fn item_or_blank(t: &Vec<char>) -> (r: (bool, bool))
    ensures
        r.0 == starts_with(trim_start(t@), "- "@),
        r.1 == (trim_start(t@).len() == 0),
{
    let a = trim_start_at(t, 0, t.len());
    assert(t@.subrange(0, t@.len() as int) =~= t@);
    let item = has_prefix_str(t, a, t.len(), "- ");
    (item, a == t.len())
}

/// Pushes the items of the block list starting at line `j` (bounded by `hi`); returns where
/// the list ends.
fn push_block_items(tags: &mut Vec<String>, lines: &Vec<String>, j0: usize, hi: usize) -> (r: usize)
    requires
        j0 <= hi <= lines@.len(),
    ensures
        r == item_list_end(strs_view(lines@), j0 as int, hi as int),
        strs_view(final(tags)@) == push_items(strs_view(old(tags)@), strs_view(lines@), j0 as int, r as int),
{
    let ghost ls = strs_view(lines@);
    let ghost e = item_list_end(ls, j0 as int, hi as int);
    let ghost target = push_items(strs_view(tags@), ls, j0 as int, e);
    proof {
        lemma_item_list_end(ls, j0 as int, hi as int);
    }
    let mut j = j0;
    let mut more = true;
    while more && j < hi
        invariant
            j0 <= j <= hi <= lines@.len() == ls.len(),
            ls == strs_view(lines@),
            j <= e <= hi,
            more ==> item_list_end(ls, j as int, hi as int) == e,
            !more ==> j == e,
            target == push_items(strs_view(tags@), ls, j as int, e),
        decreases hi - j + (if more { 1int } else { 0int }),
    {
        assert(ls[j as int] == lines@[j as int]@);
        let cs = chars_of(lines[j].as_str());
        let (item, empty) = item_or_blank(&cs);
        if item {
            proof {
                reveal_strlit("- ");
            }
            let a = trim_start_at(&cs, 0, cs.len());
            assert(cs@.subrange(0, cs@.len() as int) =~= cs@);
            let rest = copy_range(&cs, a + 2, cs.len());
            assert(rest@ =~= trim_start(cs@).skip(2));
            proof {
                lemma_item_list_end(ls, j + 1, hi as int);
            }
            push_tag(tags, &rest);
            j += 1;
        } else if empty {
            proof {
                lemma_item_list_end(ls, j + 1, hi as int);
            }
            j += 1;
        } else {
            more = false;
        }
    }
    proof {
        if more {
            assert(j == hi);
        }
    }
    j
}

/// The tags declared by the frontmatter lines `1..hi`.
fn fm_tags(lines: &Vec<String>, hi: usize) -> (r: Vec<String>)
    requires
        1 <= hi <= lines@.len(),
    ensures
        strs_view(r@) == fm_tags_of(seq![], strs_view(lines@), 1, hi as int),
{
    let ghost ls = strs_view(lines@);
    let mut tags: Vec<String> = Vec::new();
    let ghost target = fm_tags_of(seq![], ls, 1, hi as int);
    assert(strs_view(tags@) =~= Seq::<Seq<char>>::empty());
    let mut i: usize = 1;
    while i < hi
        invariant
            1 <= i <= hi <= lines@.len() == ls.len(),
            ls == strs_view(lines@),
            target == fm_tags_of(strs_view(tags@), ls, i as int, hi as int),
        decreases hi - i,
    {
        assert(ls[i as int] == lines@[i as int]@);
        let cs = chars_of(lines[i].as_str());
        let a = trim_start_at(&cs, 0, cs.len());
        assert(cs@.subrange(0, cs@.len() as int) =~= cs@);
        if has_prefix_str(&cs, a, cs.len(), "tags:") {
            proof {
                reveal_strlit("tags:");
            }
            let after = copy_range(&cs, a + 5, cs.len());
            assert(after@ =~= trim_start(cs@).skip(5));
            let rest = trimmed(&after);
            if rest.len() > 0 && rest[0] == '[' {
                let inner = strip_by(&rest, CharClass::Open, CharClass::Close);
                push_split(&mut tags, &inner, CharClass::Comma);
                i += 1;
            } else if rest.len() > 0 {
                push_split(&mut tags, &rest, CharClass::CommaOrSpace);
                i += 1;
            } else {
                let j = push_block_items(&mut tags, lines, i + 1, hi);
                proof {
                    lemma_item_list_end(ls, i + 1, hi as int);
                }
                i = j;
            }
        } else {
            i += 1;
        }
    }
    tags
}

/// Whether line `t` closes a frontmatter block.
fn closes_fm(t: &str) -> (r: bool)
    ensures
        r == is_fm_close(t@),
{
    let cs = chars_of(t);
    let tr = string_from(&trimmed(&cs));
    str_eq(tr.as_str(), "---") || str_eq(tr.as_str(), "...")
}

/// The document's frontmatter (see [`frontmatter_of`]): the index of its closing line and
/// its tags.
pub fn frontmatter(lines: &Vec<String>) -> (r: Option<(usize, Vec<String>)>)
    ensures
        match r {
            Some(f) => frontmatter_of(strs_view(lines@)) == Some((f.0 as int, strs_view(f.1@))),
            None => frontmatter_of(strs_view(lines@)) is None,
        },
{
    let ghost ls = strs_view(lines@);
    if lines.len() == 0 {
        return None;
    }
    assert(ls[0] == lines@[0]@);
    let first = string_from(&trimmed(&chars_of(lines[0].as_str())));
    if !str_eq(first.as_str(), "---") {
        return None;
    }
    let mut j: usize = 1;
    while j < lines.len() && !closes_fm(lines[j].as_str())
        invariant
            1 <= j <= lines@.len() == ls.len(),
            ls == strs_view(lines@),
            fm_close(ls, 1) == fm_close(ls, j as int),
        decreases lines.len() - j,
    {
        assert(ls[j as int] == lines@[j as int]@);
        j += 1;
    }
    if j >= lines.len() {
        return None;
    }
    assert(ls[j as int] == lines@[j as int]@);
    let tags = fm_tags(lines, j);
    Some((j, tags))
}

// ---------------------------------------------------------------------------------------------
// Headings, lineage and tags.
// ---------------------------------------------------------------------------------------------

/// A heading line's text: the heading pattern's second group, trimmed (empty if absent).
pub open spec fn heading_text_of(t: Seq<char>) -> Seq<char> {
    match regex_group_texts(heading_pattern(), t, 2) {
        Some(v) => if v.len() > 0 {
            match v[0] {
                Some(g) => trim(g),
                None => seq![],
            }
        } else {
            seq![]
        },
        None => seq![],
    }
}

/// The heading stack without its entries at `level` or deeper.
pub open spec fn pop_to(st: Seq<(nat, Seq<char>)>, level: nat) -> Seq<(nat, Seq<char>)>
    decreases st.len(),
{
    if st.len() > 0 && st.last().0 >= level {
        pop_to(st.drop_last(), level)
    } else {
        st
    }
}

/// The open headings (level and text) after the first `n` blocks.
pub open spec fn heading_stack(ls: Seq<Seq<char>>, secs: Seq<SectionView>, n: int) -> Seq<(nat, Seq<char>)>
    decreases n,
{
    if n <= 0 || n > secs.len() {
        seq![]
    } else {
        let st = heading_stack(ls, secs, n - 1);
        match secs[n - 1].0 {
            BlockKind::Heading { level } => pop_to(st, level as nat).push(
                (level as nat, heading_text_of(ls[secs[n - 1].2])),
            ),
            _ => st,
        }
    }
}

/// The texts of the headings enclosing block `k` (a heading's own excluded), outermost first.
pub open spec fn lineage_at(ls: Seq<Seq<char>>, secs: Seq<SectionView>, k: int) -> Seq<Seq<char>> {
    let st = heading_stack(ls, secs, k);
    let open = match secs[k].0 {
        BlockKind::Heading { level } => pop_to(st, level as nat),
        _ => st,
    };
    open.map_values(|e: (nat, Seq<char>)| e.1)
}

/// Where a block's tag comes from.
#[derive(Debug, Clone, Copy, PartialEq, Eq, Structural)]
pub enum TagSource {
    Frontmatter,
    Lang,
    Inline,
}

/// A tag of a block.
#[derive(Debug, Clone, PartialEq, Eq)]
pub struct Tag {
    pub name: String,
    pub source: TagSource,
}

pub open spec fn tags_view(v: Seq<Tag>) -> Seq<(Seq<char>, TagSource)> {
    v.map_values(|t: Tag| (t.name@, t.source))
}

/// `tags` with `(name, src)` appended unless `name` is empty or the pair is already there.
pub open spec fn add_tag_of(tags: Seq<(Seq<char>, TagSource)>, name: Seq<char>, src: TagSource) -> Seq<
    (Seq<char>, TagSource),
> {
    if name.len() > 0 && !tags.contains((name, src)) {
        tags.push((name, src))
    } else {
        tags
    }
}

/// `tags` with `names[i..]` added from `src`.
pub open spec fn add_names_from(
    tags: Seq<(Seq<char>, TagSource)>,
    names: Seq<Seq<char>>,
    src: TagSource,
    i: int,
) -> Seq<(Seq<char>, TagSource)>
    decreases names.len() - i,
{
    if i < 0 || i >= names.len() {
        tags
    } else {
        add_names_from(add_tag_of(tags, names[i], src), names, src, i + 1)
    }
}

/// `tags` with the captured names `caps[i..]` added as inline tags.
pub open spec fn add_caps_from(tags: Seq<(Seq<char>, TagSource)>, caps: Seq<Option<Seq<char>>>, i: int) -> Seq<
    (Seq<char>, TagSource),
>
    decreases caps.len() - i,
{
    if i < 0 || i >= caps.len() {
        tags
    } else {
        let t2 = match caps[i] {
            Some(n) => add_tag_of(tags, n, TagSource::Inline),
            None => tags,
        };
        add_caps_from(t2, caps, i + 1)
    }
}

/// A block's tags: the frontmatter's, a code fence's language, and (outside code fences) the
/// inline `#tags` of its content, each name once per source.
pub open spec fn block_tags_of(
    fm: Seq<Seq<char>>,
    kind: BlockKind,
    lang: Option<Seq<char>>,
    content: Seq<char>,
) -> Seq<(Seq<char>, TagSource)> {
    let t1 = add_names_from(seq![], fm, TagSource::Frontmatter, 0);
    if kind == BlockKind::CodeFence {
        match lang {
            Some(l) => add_tag_of(t1, l, TagSource::Lang),
            None => t1,
        }
    } else {
        match regex_group_texts(inline_tag_pattern(), content, 1) {
            Some(caps) => add_caps_from(t1, caps, 0),
            None => t1,
        }
    }
}

// ---------------------------------------------------------------------------------------------
// Documents.
// ---------------------------------------------------------------------------------------------

/// How block ids are written into Markdown; implemented by the application, so the on-disk
/// marker format stays swappable.
pub trait IdCodec {
    /// The id of the marker that `line` consists of (whitespace around it allowed), if the
    /// line is nothing but an id marker.
    fn marker_only(&self, line: &str) -> Option<String>;

    /// The marker line text (without its line break) that records `id`.
    fn encode(&self, id: &str) -> String;
}

/// A document's frontmatter: the line that closes it and the tags it declares.
#[derive(Debug, Clone, PartialEq, Eq)]
pub struct Frontmatter {
    pub end_line: usize,
    pub tags: Vec<String>,
}

/// A block of a parsed document.
#[derive(Debug, Clone, PartialEq, Eq)]
pub struct DocBlock {
    /// The id of the marker bound to the block, if one preceded it.
    pub id: Option<String>,
    pub kind: BlockKind,
    pub lang: Option<String>,
    /// The texts of the enclosing headings, outermost first.
    pub lineage: Vec<String>,
    pub tags: Vec<Tag>,
    /// The block's source text, from its first line's start to its last line's end.
    pub content: String,
    /// Where the content starts and ends in the source, counted in characters.
    pub content_start: usize,
    pub content_end: usize,
    /// Where the content starts and ends in the source, counted in bytes of its UTF-8 text.
    pub byte_start: usize,
    pub byte_end: usize,
    pub first_line: usize,
    pub end_line: usize,
    pub marker_line: Option<usize>,
}

/// A parsed Markdown document.
#[derive(Debug, Clone, PartialEq, Eq)]
pub struct Document {
    pub source: String,
    pub frontmatter: Option<Frontmatter>,
    pub blocks: Vec<DocBlock>,
}

/// The text of lines `first..end` of `s`, their separators included.
pub open spec fn content_of(s: Seq<char>, first: int, end: int) -> Seq<char> {
    let sp = line_spans(s, 0);
    s.subrange(sp[first].0, sp[end - 1].1)
}

/// Which lines are marker lines, given the codec's answer for each line.
pub open spec fn marker_flags(mk: Seq<Option<Seq<char>>>) -> Seq<bool> {
    mk.map_values(|m: Option<Seq<char>>| m is Some)
}

/// The line the blocks start at: just past the frontmatter, if there is one.
pub open spec fn body_start(ls: Seq<Seq<char>>) -> int {
    match frontmatter_of(ls) {
        Some(f) => f.0 + 1,
        None => 0,
    }
}

pub open spec fn fm_tag_list(ls: Seq<Seq<char>>) -> Seq<Seq<char>> {
    match frontmatter_of(ls) {
        Some(f) => f.1,
        None => seq![],
    }
}

/// The blocks of `src`, given the codec's answer `mk[j]` for each line `j`.
pub open spec fn doc_sections(src: Seq<char>, mk: Seq<Option<Seq<char>>>) -> Seq<SectionView> {
    sections_of(lines(src), marker_flags(mk), body_start(lines(src)), None)
}

/// Block `b` is block `k` of `src` parsed with marker answers `mk`.
pub open spec fn doc_block_ok(b: DocBlock, src: Seq<char>, mk: Seq<Option<Seq<char>>>, k: int) -> bool {
    let ls = lines(src);
    let secs = doc_sections(src, mk);
    let sec = secs[k];
    &&& b.kind == sec.0
    &&& opt_str_view(b.lang) == sec.1
    &&& b.content_start == line_spans(src, 0)[sec.2].0
    &&& b.content_end == line_spans(src, 0)[sec.3 - 1].1
    &&& b.byte_start == byte_len(src.take(line_spans(src, 0)[sec.2].0))
    &&& b.byte_end == byte_len(src.take(line_spans(src, 0)[sec.3 - 1].1))
    &&& b.first_line == sec.2
    &&& b.end_line == sec.3
    &&& match b.marker_line {
        Some(m) => sec.4 == Some(m as int),
        None => sec.4 is None,
    }
    &&& opt_str_view(b.id) == match sec.4 {
        Some(m) => mk[m],
        None => None,
    }
    &&& b.content@ == content_of(src, sec.2, sec.3)
    &&& strs_view(b.lineage@) == lineage_at(ls, secs, k)
    &&& tags_view(b.tags@) == block_tags_of(fm_tag_list(ls), sec.0, sec.1, b.content@)
}

/// `d` is `src` parsed with marker answers `mk`.
pub open spec fn parsed(d: Document, src: Seq<char>, mk: Seq<Option<Seq<char>>>) -> bool {
    let ls = lines(src);
    &&& d.source@ == src
    &&& match d.frontmatter {
        Some(f) => frontmatter_of(ls) == Some((f.end_line as int, strs_view(f.tags@))),
        None => frontmatter_of(ls) is None,
    }
    &&& d.blocks@.len() == doc_sections(src, mk).len()
    &&& forall|k: int| 0 <= k < d.blocks@.len() ==> doc_block_ok(#[trigger] d.blocks@[k], src, mk, k)
}

// ---------------------------------------------------------------------------------------------
// Structural facts used by the parser.
// ---------------------------------------------------------------------------------------------

/// The spans of the lines of `s[i..]` lie within `s[i..]`, each ending before the next begins.
pub proof fn lemma_line_spans_ordered(s: Seq<char>, i: int)
    requires
        0 <= i,
    ensures
        forall|a: int|
            0 <= a < line_spans(s, i).len() ==> i <= (#[trigger] line_spans(s, i)[a]).0
                <= line_spans(s, i)[a].1 <= s.len(),
        forall|a: int, b: int|
            0 <= a < b < line_spans(s, i).len() ==> (#[trigger] line_spans(s, i)[a]).1
                <= (#[trigger] line_spans(s, i)[b]).0,
    decreases s.len() + 1 - i,
{
    if i < s.len() {
        let f = find_char_from(s, '\n', i);
        lemma_find_char_from(s, '\n', i);
        lemma_line_spans_ordered(s, f + 1);
        let rest = line_spans(s, f + 1);
        let sp = line_spans(s, i);
        assert(sp == seq![(i, line_content_end(s, i))] + rest);
        assert forall|a: int, b: int| 0 <= a < b < sp.len() implies #[trigger] sp[a].1 <= #[trigger] sp[b].0 by {
            if a == 0 {
                assert(sp[b] == rest[b - 1]);
            } else {
                assert(sp[a] == rest[a - 1]);
                assert(sp[b] == rest[b - 1]);
            }
        }
        assert forall|a: int| 0 <= a < sp.len() implies i <= (#[trigger] sp[a]).0 <= sp[a].1 <= s.len() by {
            if a > 0 {
                assert(sp[a] == rest[a - 1]);
            }
        }
    }
}

/// Every block of lines `i..` lies within `i..ls.len()` and its marker line precedes it.
pub proof fn lemma_sections_bounds(ls: Seq<Seq<char>>, mk: Seq<bool>, i: int, pending: Option<int>)
    requires
        0 <= i,
        pending matches Some(p) ==> 0 <= p < i,
    ensures
        forall|k: int|
            0 <= k < sections_of(ls, mk, i, pending).len() ==> {
                let e = #[trigger] sections_of(ls, mk, i, pending)[k];
                &&& i <= e.2 < e.3 <= ls.len()
                &&& e.4 matches Some(m) ==> 0 <= m < e.2
            },
    decreases ls.len() - i,
{
    if i < ls.len() {
        if is_blank_line(ls[i]) {
            lemma_sections_bounds(ls, mk, i + 1, pending);
        } else if mk[i] {
            lemma_sections_bounds(ls, mk, i + 1, Some(i));
        } else {
            let c = classify_of(ls, mk, i);
            lemma_classify_end(ls, mk, i);
            lemma_sections_bounds(ls, mk, c.2, None);
            let rest = sections_of(ls, mk, c.2, None);
            let all = sections_of(ls, mk, i, pending);
            assert(all == seq![(c.0, c.1, i, c.2, pending)] + rest);
            assert forall|k: int| 0 <= k < all.len() implies {
                let e = #[trigger] all[k];
                &&& i <= e.2 < e.3 <= ls.len()
                &&& e.4 matches Some(m) ==> 0 <= m < e.2
            } by {
                if k > 0 {
                    assert(all[k] == rest[k - 1]);
                }
            }
        }
    }
}

// ---------------------------------------------------------------------------------------------
// Executable parsing.
// ---------------------------------------------------------------------------------------------

fn inline_re() -> (r: &'static str)
    ensures
        r@ == inline_tag_pattern(),
{
    "(?:^|[^\\w&/])#([A-Za-z][\\w/-]*)"
}

/// The text of a heading line (see [`heading_text_of`]).
fn heading_text(t: &str) -> (r: String)
    ensures
        r@ == heading_text_of(t@),
{
    match group_texts(heading_re(), t, 2) {
        Some(v) => {
            if v.len() > 0 {
                match &v[0] {
                    Some(g) => string_from(&trimmed(&chars_of(g.as_str()))),
                    None => String::new(),
                }
            } else {
                String::new()
            }
        },
        None => String::new(),
    }
}

pub open spec fn stack_view(st: Seq<(usize, String)>) -> Seq<(nat, Seq<char>)> {
    st.map_values(|e: (usize, String)| (e.0 as nat, e.1@))
}

/// Drops the headings at `level` or deeper from the top of the stack.
fn pop_heads(st: &mut Vec<(usize, String)>, level: usize)
    ensures
        stack_view(final(st)@) == pop_to(stack_view(old(st)@), level as nat),
{
    while st.len() > 0 && st[st.len() - 1].0 >= level
        invariant
            pop_to(stack_view(old(st)@), level as nat) == pop_to(stack_view(st@), level as nat),
        decreases st@.len(),
    {
        let ghost before = stack_view(st@);
        st.pop();
        assert(stack_view(st@) =~= before.drop_last());
    }
}

/// The texts of the stacked headings, outermost first.
fn stack_texts(st: &Vec<(usize, String)>) -> (r: Vec<String>)
    ensures
        strs_view(r@) == stack_view(st@).map_values(|e: (nat, Seq<char>)| e.1),
{
    let mut r: Vec<String> = Vec::new();
    let mut i: usize = 0;
    while i < st.len()
        invariant
            i <= st@.len(),
            r@.len() == i,
            forall|k: int| 0 <= k < i ==> (#[trigger] r@[k])@ == st@[k].1@,
        decreases st.len() - i,
    {
        r.push(string_from(&chars_of(st[i].1.as_str())));
        i += 1;
    }
    assert(strs_view(r@) =~= stack_view(st@).map_values(|e: (nat, Seq<char>)| e.1));
    r
}

/// Whether `(name, src)` is among `tags`.
fn has_pair(tags: &Vec<Tag>, name: &Vec<char>, src: TagSource) -> (r: bool)
    ensures
        r == tags_view(tags@).contains((name@, src)),
{
    let mut k: usize = 0;
    while k < tags.len()
        invariant
            k <= tags@.len(),
            forall|m: int| 0 <= m < k ==> tags_view(tags@)[m] != (name@, src),
        decreases tags.len() - k,
    {
        let cs = chars_of(tags[k].name.as_str());
        if tags[k].source == src && chars_eq(&cs, name) {
            assert(tags_view(tags@)[k as int] == (name@, src));
            return true;
        }
        k += 1;
    }
    assert(!tags_view(tags@).contains((name@, src))) by {
        if tags_view(tags@).contains((name@, src)) {
            let m = choose|m: int| 0 <= m < tags_view(tags@).len() && tags_view(tags@)[m] == (name@, src);
            assert(tags_view(tags@)[m] != (name@, src));
        }
    }
    false
}

fn add_tag(tags: &mut Vec<Tag>, name: &Vec<char>, src: TagSource)
    ensures
        tags_view(final(tags)@) == add_tag_of(tags_view(old(tags)@), name@, src),
{
    if name.len() > 0 && !has_pair(tags, name, src) {
        let ghost before = tags_view(tags@);
        tags.push(Tag { name: string_from(name), source: src });
        assert(tags_view(tags@) =~= before.push((name@, src)));
    }
}

/// A block's tags (see [`block_tags_of`]).
fn block_tags(fm: &Vec<String>, kind: BlockKind, lang: &Option<String>, content: &String) -> (r: Vec<Tag>)
    ensures
        tags_view(r@) == block_tags_of(strs_view(fm@), kind, opt_str_view(*lang), content@),
{
    let mut tags: Vec<Tag> = Vec::new();
    let ghost names = strs_view(fm@);
    let ghost t1 = add_names_from(seq![], names, TagSource::Frontmatter, 0);
    assert(tags_view(tags@) =~= Seq::<(Seq<char>, TagSource)>::empty());
    let mut i: usize = 0;
    while i < fm.len()
        invariant
            i <= fm@.len() == names.len(),
            names == strs_view(fm@),
            t1 == add_names_from(tags_view(tags@), names, TagSource::Frontmatter, i as int),
        decreases fm.len() - i,
    {
        assert(names[i as int] == fm@[i as int]@);
        add_tag(&mut tags, &chars_of(fm[i].as_str()), TagSource::Frontmatter);
        i += 1;
    }
    if kind == BlockKind::CodeFence {
        match lang {
            Some(l) => add_tag(&mut tags, &chars_of(l.as_str()), TagSource::Lang),
            None => {},
        }
        return tags;
    }
    match group_texts(inline_re(), content.as_str(), 1) {
        Some(caps) => {
            let ghost cv = crate::rx::opt_strs_view(caps@);
            let ghost target = add_caps_from(tags_view(tags@), cv, 0);
            let mut j: usize = 0;
            while j < caps.len()
                invariant
                    j <= caps@.len() == cv.len(),
                    cv == crate::rx::opt_strs_view(caps@),
                    target == add_caps_from(tags_view(tags@), cv, j as int),
                decreases caps.len() - j,
            {
                match &caps[j] {
                    Some(n) => add_tag(&mut tags, &chars_of(n.as_str()), TagSource::Inline),
                    None => {},
                }
                j += 1;
            }
        },
        None => {},
    }
    tags
}

/// The lines of `s` and their spans (see [`lines`] and [`line_spans`]).
fn split_lines(s: &Vec<char>) -> (r: (Vec<String>, Vec<(usize, usize)>))
    ensures
        strs_view(r.0@) == lines(s@),
        r.1@.map_values(|p: (usize, usize)| (p.0 as int, p.1 as int)) == line_spans(s@, 0),
        forall|k: int| 0 <= k < r.0@.len() ==> (#[trigger] r.0@[k])@.len() <= s@.len(),
{
    let spans = line_spans_exec(s);
    let ghost sp = line_spans(s@, 0);
    let mut out: Vec<String> = Vec::new();
    let mut i: usize = 0;
    while i < spans.len()
        invariant
            i <= spans@.len() == sp.len(),
            spans@.map_values(|p: (usize, usize)| (p.0 as int, p.1 as int)) == sp,
            forall|k: int| 0 <= k < spans@.len() ==> (#[trigger] spans@[k]).0 <= spans@[k].1 <= s@.len(),
            out@.len() == i,
            forall|k: int| 0 <= k < i ==> (#[trigger] out@[k])@ == s@.subrange(sp[k].0, sp[k].1),
        decreases spans.len() - i,
    {
        let (a, b) = spans[i];
        assert(sp[i as int] == (a as int, b as int));
        out.push(string_from(&copy_range(s, a, b)));
        i += 1;
    }
    assert(strs_view(out@) =~= lines(s@));
    (out, spans)
}

pub open spec fn markers_view(v: Seq<Option<String>>) -> Seq<Option<Seq<char>>> {
    v.map_values(|o: Option<String>| opt_str_view(o))
}

/// The length of the UTF-8 text of `s`, in bytes.
pub open spec fn byte_len(s: Seq<char>) -> nat {
    encode_utf8(s).len()
}

proof fn lemma_byte_len_push(s: Seq<char>, c: char)
    ensures
        byte_len(s.push(c)) == byte_len(s) + utf8_width(c),
{
    crate::link::lemma_encode_append(s, seq![c]);
    assert(s.push(c) =~= s + seq![c]);
    assert(seq![c].drop_first() =~= Seq::<char>::empty());
    assert(encode_utf8(seq![c]) =~= encode_scalar(c as u32) + encode_utf8(Seq::<char>::empty()));
    char_is_scalar(c);
}

/// For each line span `(a, b)`, the byte offsets of `a` and `b`.
fn span_bytes(src: &Vec<char>, spans: &Vec<(usize, usize)>) -> (r: Vec<(usize, usize)>)
    requires
        src@.len() <= usize::MAX / 4,
        forall|a: int| 0 <= a < spans@.len() ==> (#[trigger] spans@[a]).0 <= spans@[a].1 <= src@.len(),
        forall|a: int, b: int| 0 <= a < b < spans@.len() ==> (#[trigger] spans@[a]).1 <= (#[trigger] spans@[b]).0,
    ensures
        r@.len() == spans@.len(),
        forall|k: int|
            0 <= k < r@.len() ==> (#[trigger] r@[k]).0 == byte_len(src@.take(spans@[k].0 as int))
                && r@[k].1 == byte_len(src@.take(spans@[k].1 as int)),
{
    let mut out: Vec<(usize, usize)> = Vec::new();
    let mut cpos: usize = 0;
    let mut bpos: usize = 0;
    let mut k: usize = 0;
    assert(src@.take(0) =~= Seq::<char>::empty());
    while k < spans.len()
        invariant
            src@.len() <= usize::MAX / 4,
            forall|a: int| 0 <= a < spans@.len() ==> (#[trigger] spans@[a]).0 <= spans@[a].1 <= src@.len(),
            forall|a: int, b: int|
                0 <= a < b < spans@.len() ==> (#[trigger] spans@[a]).1 <= (#[trigger] spans@[b]).0,
            k <= spans@.len(),
            cpos <= src@.len(),
            k < spans@.len() ==> cpos <= spans@[k as int].0,
            bpos == byte_len(src@.take(cpos as int)),
            bpos <= 4 * cpos,
            out@.len() == k,
            forall|j: int|
                0 <= j < k ==> (#[trigger] out@[j]).0 == byte_len(src@.take(spans@[j].0 as int))
                    && out@[j].1 == byte_len(src@.take(spans@[j].1 as int)),
        decreases spans.len() - k,
    {
        let (a, b) = spans[k];
        while cpos < a
            invariant
                cpos <= a <= src@.len() <= usize::MAX / 4,
                bpos == byte_len(src@.take(cpos as int)),
                bpos <= 4 * cpos,
            decreases a - cpos,
        {
            proof {
                lemma_byte_len_push(src@.take(cpos as int), src@[cpos as int]);
                assert(src@.take(cpos as int).push(src@[cpos as int]) =~= src@.take(cpos + 1));
            }
            bpos = bpos + char_width(src[cpos]);
            cpos += 1;
        }
        let ba = bpos;
        while cpos < b
            invariant
                cpos <= b <= src@.len() <= usize::MAX / 4,
                bpos == byte_len(src@.take(cpos as int)),
                bpos <= 4 * cpos,
            decreases b - cpos,
        {
            proof {
                lemma_byte_len_push(src@.take(cpos as int), src@[cpos as int]);
                assert(src@.take(cpos as int).push(src@[cpos as int]) =~= src@.take(cpos + 1));
            }
            bpos = bpos + char_width(src[cpos]);
            cpos += 1;
        }
        out.push((ba, bpos));
        proof {
            if k + 1 < spans@.len() {
                assert(spans@[k as int].1 <= spans@[k + 1].0);
            }
        }
        k += 1;
    }
    out
}

/// Parses `source` given, for each of its lines, the id of the marker that line consists of
/// (see [`parsed`]).
pub fn parse_lines(source: &str, markers: &Vec<Option<String>>) -> (d: Document)
    requires
        source@.len() <= usize::MAX / 4,
        markers@.len() == lines(source@).len(),
    ensures
        parsed(d, source@, markers_view(markers@)),
        starts_ordered(d),
{
    let ghost mk = markers_view(markers@);
    let src = chars_of(source);
    let (ls, spans) = split_lines(&src);
    let ghost lv = strs_view(ls@);
    let ghost sp = line_spans(src@, 0);
    proof {
        lemma_line_spans_ordered(src@, 0);
    }
    assert forall|a: int| 0 <= a < spans@.len() implies (#[trigger] spans@[a]).0 <= spans@[a].1
        <= src@.len() by {
        assert(sp[a] == (spans@[a].0 as int, spans@[a].1 as int));
    }
    assert forall|a: int, b: int| 0 <= a < b < spans@.len() implies (#[trigger] spans@[a]).1
        <= (#[trigger] spans@[b]).0 by {
        assert(sp[a] == (spans@[a].0 as int, spans@[a].1 as int));
        assert(sp[b] == (spans@[b].0 as int, spans@[b].1 as int));
    }
    let sb = span_bytes(&src, &spans);
    assert(lines_fit(ls@)) by {
        assert forall|k: int| 0 <= k < ls@.len() implies (#[trigger] ls@[k])@.len() <= usize::MAX / 4 by {
            assert(ls@[k]@.len() <= src@.len());
        }
    }
    let fm = frontmatter(&ls);
    let mut start: usize = 0;
    let mut fm_tags: Vec<String> = Vec::new();
    let mut front: Option<Frontmatter> = None;
    match fm {
        Some((e, t)) => {
            let n_ls = ls.len();
            assert(e < n_ls);
            start = e + 1;
            fm_tags = crate::block::clone_strings(&t);
            front = Some(Frontmatter { end_line: e, tags: t });
        },
        None => {},
    }
    assert(start as int == body_start(lv));
    assert(strs_view(fm_tags@) == fm_tag_list(lv));
    let mut flags: Vec<bool> = Vec::new();
    let mut i: usize = 0;
    while i < markers.len()
        invariant
            i <= markers@.len(),
            flags@.len() == i,
            forall|k: int| 0 <= k < i ==> flags@[k] == (#[trigger] markers@[k]) is Some,
        decreases markers.len() - i,
    {
        flags.push(markers[i].is_some());
        i += 1;
    }
    assert(flags@ =~= marker_flags(mk));
    let secs = sections(&ls, &flags, start);
    let ghost sv = sections_view(secs@);
    assert(sv == doc_sections(source@, mk));
    proof {
        lemma_sections_bounds(lv, flags@, start as int, None);
    }
    let mut blocks: Vec<DocBlock> = Vec::new();
    let mut stack: Vec<(usize, String)> = Vec::new();
    assert(stack_view(stack@) =~= heading_stack(lv, sv, 0));
    let mut k: usize = 0;
    while k < secs.len()
        invariant
            k <= secs@.len() == sv.len(),
            sv == sections_view(secs@),
            sv == doc_sections(source@, mk),
            lv == strs_view(ls@),
            lv == lines(source@),
            src@ == source@,
            sp == line_spans(src@, 0),
            spans@.map_values(|p: (usize, usize)| (p.0 as int, p.1 as int)) == sp,
            ls@.len() == sp.len() == markers@.len(),
            sb@.len() == spans@.len(),
            forall|j: int|
                0 <= j < sb@.len() ==> (#[trigger] sb@[j]).0 == byte_len(src@.take(spans@[j].0 as int))
                    && sb@[j].1 == byte_len(src@.take(spans@[j].1 as int)),
            mk == markers_view(markers@),
            strs_view(fm_tags@) == fm_tag_list(lv),
            forall|a: int|
                0 <= a < sp.len() ==> 0 <= (#[trigger] sp[a]).0 <= sp[a].1 <= src@.len(),
            forall|a: int, b: int| 0 <= a < b < sp.len() ==> (#[trigger] sp[a]).1 <= (#[trigger] sp[b]).0,
            forall|j: int|
                0 <= j < sv.len() ==> {
                    let e = #[trigger] sv[j];
                    &&& start <= e.2 < e.3 <= lv.len()
                    &&& e.4 matches Some(m) ==> 0 <= m < e.2
                },
            stack_view(stack@) == heading_stack(lv, sv, k as int),
            blocks@.len() == k,
            forall|j: int| 0 <= j < k ==> doc_block_ok(#[trigger] blocks@[j], source@, mk, j),
        decreases secs.len() - k,
    {
        let sec = &secs[k];
        let ghost e = sv[k as int];
        assert(e == section_view(secs@[k as int]));
        let first = sec.start;
        let end = sec.end;
        assert(spans@[first as int].0 as int == sp[first as int].0);
        assert(spans@[end - 1].1 as int == sp[end - 1].1);
        if first < end - 1 {
            assert(sp[first as int].1 <= sp[end - 1].0);
        }
        let content_start = spans[first].0;
        let content_end = spans[end - 1].1;
        let byte_start = sb[first].0;
        let byte_end = sb[end - 1].1;
        let content = string_from(&copy_range(&src, content_start, content_end));
        let lang = match &sec.lang {
            Some(l) => Some(string_from(&chars_of(l.as_str()))),
            None => None,
        };
        let id = match sec.marker {
            Some(m) => match &markers[m] {
                Some(x) => Some(string_from(&chars_of(x.as_str()))),
                None => None,
            },
            None => None,
        };
        let tags = block_tags(&fm_tags, sec.kind, &lang, &content);
        let ghost st0 = stack_view(stack@);
        let lineage = match sec.kind {
            BlockKind::Heading { level } => {
                pop_heads(&mut stack, level);
                let texts = stack_texts(&stack);
                assert(ls@[first as int]@ == lv[first as int]);
                let h = heading_text(ls[first].as_str());
                let ghost st1 = stack_view(stack@);
                stack.push((level, h));
                assert(stack_view(stack@) =~= st1.push((level as nat, heading_text_of(lv[first as int]))));
                texts
            },
            _ => stack_texts(&stack),
        };
        let b = DocBlock {
            id,
            kind: sec.kind,
            lang,
            lineage,
            tags,
            content,
            content_start,
            content_end,
            byte_start,
            byte_end,
            first_line: first,
            end_line: end,
            marker_line: sec.marker,
        };
        assert(doc_block_ok(b, source@, mk, k as int));
        blocks.push(b);
        assert forall|j: int| 0 <= j < k + 1 implies doc_block_ok(#[trigger] blocks@[j], source@, mk, j) by {
            if j < k {
            }
        }
        k += 1;
    }
    let d = Document { source: string_from(&src), frontmatter: front, blocks };
    proof {
        lemma_parsed_starts_ordered(d, source@, mk);
    }
    d
}

impl Document {
    /// Parses `source`, asking `codec` which lines are id markers (see [`parsed`]): the
    /// result is `source` parsed with the codec's answer for each of its lines.
    pub fn parse_with<C: IdCodec>(codec: &C, source: &str) -> (d: Document)
        requires
            source@.len() <= usize::MAX / 4,
        ensures
            exists|mk: Seq<Option<Seq<char>>>|
                mk.len() == lines(source@).len() && #[trigger] parsed(d, source@, mk),
            starts_ordered(d),
    {
        let src = chars_of(source);
        let (ls, _spans) = split_lines(&src);
        let mut markers: Vec<Option<String>> = Vec::new();
        let mut i: usize = 0;
        while i < ls.len()
            invariant
                i <= ls@.len(),
                markers@.len() == i,
            decreases ls.len() - i,
        {
            markers.push(codec.marker_only(ls[i].as_str()));
            i += 1;
        }
        assert(ls@.len() == lines(source@).len()) by {
            assert(strs_view(ls@).len() == ls@.len());
        }
        let d = parse_lines(source, &markers);
        assert(parsed(d, source@, markers_view(markers@)));
        d
    }

    /// The first block bound to the marker id `id`.
    pub fn block(&self, id: &str) -> (r: Option<&DocBlock>)
        ensures
            match r {
                Some(b) => exists|k: int|
                    0 <= k < self.blocks@.len() && self.blocks@[k] == *b && opt_str_view(b.id)
                        == Some(id@) && forall|j: int|
                        0 <= j < k ==> opt_str_view(#[trigger] self.blocks@[j].id) != Some(id@),
                None => forall|j: int|
                    0 <= j < self.blocks@.len() ==> opt_str_view(#[trigger] self.blocks@[j].id)
                        != Some(id@),
            },
    {
        let want = chars_of(id);
        let mut k: usize = 0;
        while k < self.blocks.len()
            invariant
                k <= self.blocks@.len(),
                want@ == id@,
                forall|j: int| 0 <= j < k ==> opt_str_view(#[trigger] self.blocks@[j].id) != Some(id@),
            decreases self.blocks.len() - k,
        {
            let b = &self.blocks[k];
            match &b.id {
                Some(x) => {
                    if chars_eq(&chars_of(x.as_str()), &want) {
                        return Some(b);
                    }
                },
                None => {},
            }
            k += 1;
        }
        None
    }
}

/// The blocks of a document come in source order and do not overlap: each ends no later than
/// the next begins, every block lies within the document's lines, and a block's marker line
/// comes before its first line.
pub proof fn lemma_blocks_in_order(src: Seq<char>, mk: Seq<Option<Seq<char>>>)
    ensures
        forall|a: int, b: int|
            0 <= a < b < doc_sections(src, mk).len() ==> (#[trigger] doc_sections(src, mk)[a]).3
                <= (#[trigger] doc_sections(src, mk)[b]).2,
        forall|k: int|
            0 <= k < doc_sections(src, mk).len() ==> {
                let e = #[trigger] doc_sections(src, mk)[k];
                &&& 0 <= e.2 < e.3 <= lines(src).len()
                &&& e.4 matches Some(m) ==> 0 <= m < e.2
            },
{
    let ls = lines(src);
    let fl = marker_flags(mk);
    let st = body_start(ls);
    assert(st >= 0) by {
        match frontmatter_of(ls) {
            Some(f) => {
                assert(f.0 == fm_close(ls, 1));
                lemma_fm_close(ls, 1);
            },
            None => {},
        }
    }
    lemma_sections_bounds(ls, fl, st, None);
    lemma_sections_ordered(ls, fl, st, None);
}

proof fn lemma_fm_close(ls: Seq<Seq<char>>, j: int)
    requires
        0 <= j,
    ensures
        fm_close(ls, j) >= 0,
    decreases ls.len() - j,
{
    if j < ls.len() && !is_fm_close(ls[j]) {
        lemma_fm_close(ls, j + 1);
    }
}

proof fn lemma_sections_ordered(ls: Seq<Seq<char>>, mk: Seq<bool>, i: int, pending: Option<int>)
    requires
        0 <= i,
        pending matches Some(p) ==> 0 <= p < i,
    ensures
        forall|a: int, b: int|
            0 <= a < b < sections_of(ls, mk, i, pending).len() ==> (#[trigger] sections_of(
                ls,
                mk,
                i,
                pending,
            )[a]).3 <= (#[trigger] sections_of(ls, mk, i, pending)[b]).2,
    decreases ls.len() - i,
{
    if i < ls.len() {
        if is_blank_line(ls[i]) {
            lemma_sections_ordered(ls, mk, i + 1, pending);
            assert(sections_of(ls, mk, i, pending) == sections_of(ls, mk, i + 1, pending));
        } else if mk[i] {
            lemma_sections_ordered(ls, mk, i + 1, Some(i));
            assert(sections_of(ls, mk, i, pending) == sections_of(ls, mk, i + 1, Some(i)));
        } else {
            let c = classify_of(ls, mk, i);
            lemma_classify_end(ls, mk, i);
            lemma_sections_ordered(ls, mk, c.2, None);
            lemma_sections_bounds(ls, mk, c.2, None);
            let rest = sections_of(ls, mk, c.2, None);
            let all = sections_of(ls, mk, i, pending);
            assert(all == seq![(c.0, c.1, i, c.2, pending)] + rest);
            assert forall|a: int, b: int| 0 <= a < b < all.len() implies #[trigger] all[a].3
                <= #[trigger] all[b].2 by {
                assert(all[b] == rest[b - 1]);
                if a > 0 {
                    assert(all[a] == rest[a - 1]);
                }
            }
        }
    }
}

// ---------------------------------------------------------------------------------------------
// Writing markers for blocks that have none.
// ---------------------------------------------------------------------------------------------

/// The number of blocks from `i` on that no marker precedes.
pub open spec fn unmarked_from(bs: Seq<DocBlock>, i: int) -> nat
    decreases bs.len() - i,
{
    if i < 0 || i >= bs.len() {
        0
    } else if bs[i].id is Some {
        unmarked_from(bs, i + 1)
    } else {
        1 + unmarked_from(bs, i + 1)
    }
}

/// A block's indentation: the leading whitespace of its content.
pub open spec fn block_indent(b: DocBlock) -> Seq<char> {
    b.content@.take(crate::text::ws_prefix_len(b.content@) as int)
}

/// `src[pos..]` with a marker line inserted before the content of each block from `i` on that
/// no marker precedes: the block's indentation, the next marker text of `ms` (from `ms[m]`
/// on) and a line break. Nothing else changes.
pub open spec fn assigned_text(
    src: Seq<char>,
    bs: Seq<DocBlock>,
    ms: Seq<Seq<char>>,
    i: int,
    m: int,
    pos: int,
) -> Seq<char>
    decreases bs.len() - i,
{
    if i < 0 || i >= bs.len() {
        src.subrange(pos, src.len() as int)
    } else if bs[i].id is Some {
        assigned_text(src, bs, ms, i + 1, m, pos)
    } else {
        let s = bs[i].content_start as int;
        src.subrange(pos, s) + block_indent(bs[i]) + ms[m] + seq!['\n'] + assigned_text(
            src,
            bs,
            ms,
            i + 1,
            m + 1,
            s,
        )
    }
}

/// The blocks' content starts lie within the source, in order.
pub open spec fn starts_ordered(d: Document) -> bool {
    &&& forall|a: int, b: int|
        0 <= a < b < d.blocks@.len() ==> (#[trigger] d.blocks@[a]).content_start
            <= (#[trigger] d.blocks@[b]).content_start
    &&& forall|a: int| 0 <= a < d.blocks@.len() ==> (#[trigger] d.blocks@[a]).content_start <= d.source@.len()
}

/// A parsed document's blocks start in order within its source.
pub proof fn lemma_parsed_starts_ordered(d: Document, src: Seq<char>, mk: Seq<Option<Seq<char>>>)
    requires
        parsed(d, src, mk),
    ensures
        starts_ordered(d),
{
    let secs = doc_sections(src, mk);
    let sp = line_spans(src, 0);
    lemma_blocks_in_order(src, mk);
    lemma_line_spans_ordered(src, 0);
    assert(lines(src).len() == sp.len());
    assert forall|a: int, b: int| 0 <= a < b < d.blocks@.len() implies (#[trigger] d.blocks@[a]).content_start
        <= (#[trigger] d.blocks@[b]).content_start by {
        assert(doc_block_ok(d.blocks@[a], src, mk, a));
        assert(doc_block_ok(d.blocks@[b], src, mk, b));
        let ea = secs[a];
        let eb = secs[b];
        assert(ea.3 <= eb.2);
        assert(sp[ea.2].1 <= sp[eb.2].0);
    }
    assert forall|a: int| 0 <= a < d.blocks@.len() implies (#[trigger] d.blocks@[a]).content_start
        <= d.source@.len() by {
        assert(doc_block_ok(d.blocks@[a], src, mk, a));
        let ea = secs[a];
        assert(0 <= sp[ea.2].0 <= sp[ea.2].1 <= src.len());
    }
}

/// `ms[k]` is what `encode` gave for `ids[k]`, for every `k`.
pub open spec fn encodes_each<F: Fn(&String) -> String>(encode: F, ids: Seq<String>, ms: Seq<String>) -> bool {
    &&& ms.len() == ids.len()
    &&& forall|k: int| 0 <= k < ms.len() ==> call_ensures(encode, (&ids[k],), #[trigger] ms[k])
}

impl Document {
    /// The source with a marker line written before each block that has none (see
    /// [`assigned_text`]): `markers` holds the marker texts, in block order. `None` when every
    /// block already has a marker. Only marker lines are inserted.
    pub fn assign_markers(&self, markers: &Vec<String>) -> (r: Option<String>)
        requires
            starts_ordered(*self),
            markers@.len() >= unmarked_from(self.blocks@, 0),
        ensures
            match r {
                Some(t) => unmarked_from(self.blocks@, 0) > 0 && t@ == assigned_text(
                    self.source@,
                    self.blocks@,
                    strs_view(markers@),
                    0,
                    0,
                    0,
                ),
                None => unmarked_from(self.blocks@, 0) == 0,
            },
    {
        let ghost bs = self.blocks@;
        let ghost ms = strs_view(markers@);
        let src = chars_of(self.source.as_str());
        let ghost target = assigned_text(src@, bs, ms, 0, 0, 0);
        let mut out: Vec<char> = Vec::new();
        let mut pos: usize = 0;
        let mut m: usize = 0;
        let mut i: usize = 0;
        assert(out@ + target =~= target);
        while i < self.blocks.len()
            invariant
                i <= bs.len() == self.blocks@.len(),
                bs == self.blocks@,
                src@ == self.source@,
                ms == strs_view(markers@),
                starts_ordered(*self),
                markers@.len() >= unmarked_from(bs, 0),
                pos <= src@.len(),
                forall|j: int| i <= j < bs.len() ==> pos <= (#[trigger] bs[j]).content_start,
                m + unmarked_from(bs, i as int) == unmarked_from(bs, 0),
                out@ + assigned_text(src@, bs, ms, i as int, m as int, pos as int) == target,
            decreases bs.len() - i,
        {
            let b = &self.blocks[i];
            if b.id.is_none() {
                let ghost rest = assigned_text(src@, bs, ms, i + 1, m + 1, b.content_start as int);
                let s = b.content_start;
                assert(s <= src@.len());
                assert(unmarked_from(bs, i as int) == 1 + unmarked_from(bs, i + 1));
                let n_markers = markers.len();
                assert(m < n_markers);
                push_range(&mut out, &src, pos, s);
                let cc = chars_of(b.content.as_str());
                let a = trim_start_at(&cc, 0, cc.len());
                assert(cc@.subrange(0, cc@.len() as int) =~= cc@);
                assert(cc@.subrange(0, a as int) =~= block_indent(*b));
                push_range(&mut out, &cc, 0, a);
                assert(ms[m as int] == markers@[m as int]@);
                push_str(&mut out, markers[m].as_str());
                out.push('\n');
                assert(out@ + rest =~= (out@.drop_last()) + seq!['\n'] + rest);
                m += 1;
                pos = s;
                assert forall|j: int| i + 1 <= j < bs.len() implies pos <= (#[trigger] bs[j]).content_start by {
                    assert(bs[i as int].content_start <= bs[j].content_start);
                }
            }
            i += 1;
        }
        push_range(&mut out, &src, pos, src.len());
        if m == 0 {
            return None;
        }
        Some(string_from(&out))
    }

    /// The source with a marker line before each block that has none: the `k`-th such block
    /// gets `encode(&ids[k])`, the marker that records `ids[k]`. `None` when every block already
    /// has a marker; otherwise the result is [`assigned_text`] for those markers.
    pub fn with_assigned_ids<F: Fn(&String) -> String>(&self, encode: &F, ids: &Vec<String>) -> (r: Option<
        String,
    >)
        requires
            starts_ordered(*self),
            ids@.len() >= unmarked_from(self.blocks@, 0),
            forall|k: int| 0 <= k < ids@.len() ==> call_requires(*encode, (&ids@[k],)),
        ensures
            exists|ms: Seq<String>|
                {
                    &&& #[trigger] encodes_each(*encode, ids@, ms)
                    &&& match r {
                        Some(t) => unmarked_from(self.blocks@, 0) > 0 && t@ == assigned_text(
                            self.source@,
                            self.blocks@,
                            strs_view(ms),
                            0,
                            0,
                            0,
                        ),
                        None => unmarked_from(self.blocks@, 0) == 0,
                    }
                },
    {
        let mut markers: Vec<String> = Vec::new();
        let mut k: usize = 0;
        while k < ids.len()
            invariant
                k <= ids@.len(),
                markers@.len() == k,
                forall|j: int| 0 <= j < ids@.len() ==> call_requires(*encode, (&ids@[j],)),
                forall|j: int| 0 <= j < k ==> call_ensures(*encode, (&ids@[j],), #[trigger] markers@[j]),
            decreases ids.len() - k,
        {
            let e = encode(&ids[k]);
            markers.push(e);
            k += 1;
        }
        let r = self.assign_markers(&markers);
        assert(encodes_each(*encode, ids@, markers@));
        r
    }
}

/// Parsing keeps the source: every block's content is exactly the source text between the
/// offsets it records (in characters, and its UTF-8 bytes between the byte offsets), and those
/// offsets lie within the source.
pub proof fn lemma_content_is_source_range(d: Document, src: Seq<char>, mk: Seq<Option<Seq<char>>>)
    requires
        parsed(d, src, mk),
    ensures
        forall|k: int|
            0 <= k < d.blocks@.len() ==> {
                let b = #[trigger] d.blocks@[k];
                &&& b.content_start <= b.content_end <= src.len()
                &&& b.content@ == src.subrange(b.content_start as int, b.content_end as int)
                &&& b.byte_start <= b.byte_end <= encode_utf8(src).len()
                &&& encode_utf8(src).subrange(b.byte_start as int, b.byte_end as int) == encode_utf8(
                    b.content@,
                )
            },
{
    let secs = doc_sections(src, mk);
    let sp = line_spans(src, 0);
    lemma_blocks_in_order(src, mk);
    lemma_line_spans_ordered(src, 0);
    assert(lines(src).len() == sp.len());
    assert forall|k: int| 0 <= k < d.blocks@.len() implies {
        let b = #[trigger] d.blocks@[k];
        &&& b.content_start <= b.content_end <= src.len()
        &&& b.content@ == src.subrange(b.content_start as int, b.content_end as int)
        &&& b.byte_start <= b.byte_end <= encode_utf8(src).len()
        &&& encode_utf8(src).subrange(b.byte_start as int, b.byte_end as int) == encode_utf8(
            b.content@,
        )
    } by {
        let b = d.blocks@[k];
        assert(doc_block_ok(b, src, mk, k));
        let e = secs[k];
        if e.2 < e.3 - 1 {
            assert(sp[e.2].1 <= sp[e.3 - 1].0);
        }
        let cs = b.content_start as int;
        let ce = b.content_end as int;
        let pre = src.take(cs);
        let mid = src.subrange(cs, ce);
        let post = src.skip(ce);
        assert(src.take(ce) =~= pre + mid);
        assert(src =~= (pre + mid) + post);
        crate::link::lemma_encode_append(pre, mid);
        crate::link::lemma_encode_append(pre + mid, post);
        assert(encode_utf8(src).subrange(b.byte_start as int, b.byte_end as int) =~= encode_utf8(mid));
    }
}

/// `parts` joined with `sep` between them.
pub open spec fn joined(parts: Seq<Seq<char>>, sep: Seq<char>) -> Seq<char>
    decreases parts.len(),
{
    if parts.len() == 0 {
        seq![]
    } else if parts.len() == 1 {
        parts[0]
    } else {
        joined(parts.drop_last(), sep) + sep + parts.last()
    }
}

/// A block's text with its heading path in front: the lineage joined by ` > `, a blank line,
/// then the content; just the content when no heading encloses the block.
pub open spec fn contextual_of(lineage: Seq<Seq<char>>, content: Seq<char>) -> Seq<char> {
    if lineage.len() == 0 {
        content
    } else {
        joined(lineage, " > "@) + "\n\n"@ + content
    }
}

impl DocBlock {
    /// The block's content prefixed by its heading path (see [`contextual_of`]), so a chunk
    /// carries the context of the sections it sits in.
    pub fn contextual_text(&self) -> (r: String)
        ensures
            r@ == contextual_of(strs_view(self.lineage@), self.content@),
    {
        let ghost ls = strs_view(self.lineage@);
        if self.lineage.len() == 0 {
            return string_from(&chars_of(self.content.as_str()));
        }
        let mut out: Vec<char> = Vec::new();
        push_str(&mut out, self.lineage[0].as_str());
        let mut i: usize = 1;
        assert(ls.take(1).drop_last() =~= Seq::<Seq<char>>::empty());
        assert(joined(ls.take(1), " > "@) == ls[0]);
        while i < self.lineage.len()
            invariant
                1 <= i <= self.lineage@.len(),
                ls == strs_view(self.lineage@),
                out@ == joined(ls.take(i as int), " > "@),
            decreases self.lineage.len() - i,
        {
            push_str(&mut out, " > ");
            push_str(&mut out, self.lineage[i].as_str());
            assert(ls.take(i + 1).drop_last() =~= ls.take(i as int));
            assert(ls.take(i + 1).last() == ls[i as int]);
            i += 1;
        }
        assert(ls.take(i as int) =~= ls);
        push_str(&mut out, "\n\n");
        push_str(&mut out, self.content.as_str());
        string_from(&out)
    }
}

// ---------------------------------------------------------------------------------------------
// Paragraphs stop where another block starts.
// ---------------------------------------------------------------------------------------------

proof fn lemma_para_end_clear(ls: Seq<Seq<char>>, mk: Seq<bool>, j: int)
    requires
        0 <= j <= ls.len(),
    ensures
        forall|k: int| j <= k < para_end(ls, mk, j) ==> !interrupts(#[trigger] ls[k], mk[k]),
    decreases ls.len() - j,
{
    if j < ls.len() && !interrupts(ls[j], mk[j]) {
        lemma_para_end_clear(ls, mk, j + 1);
    }
}

proof fn lemma_sections_classified(ls: Seq<Seq<char>>, mk: Seq<bool>, i: int, pending: Option<int>)
    requires
        0 <= i,
    ensures
        forall|k: int|
            0 <= k < sections_of(ls, mk, i, pending).len() ==> {
                let e = #[trigger] sections_of(ls, mk, i, pending)[k];
                &&& 0 <= e.2 < ls.len()
                &&& classify_of(ls, mk, e.2) == (e.0, e.1, e.3)
                &&& !is_blank_line(ls[e.2])
                &&& !mk[e.2]
            },
    decreases ls.len() - i,
{
    if i < ls.len() {
        if is_blank_line(ls[i]) {
            lemma_sections_classified(ls, mk, i + 1, pending);
            assert(sections_of(ls, mk, i, pending) == sections_of(ls, mk, i + 1, pending));
        } else if mk[i] {
            lemma_sections_classified(ls, mk, i + 1, Some(i));
            assert(sections_of(ls, mk, i, pending) == sections_of(ls, mk, i + 1, Some(i)));
        } else {
            let c = classify_of(ls, mk, i);
            lemma_classify_end(ls, mk, i);
            lemma_sections_classified(ls, mk, c.2, None);
            let rest = sections_of(ls, mk, c.2, None);
            let all = sections_of(ls, mk, i, pending);
            assert(all == seq![(c.0, c.1, i, c.2, pending)] + rest);
            assert forall|k: int| 0 <= k < all.len() implies {
                let e = #[trigger] all[k];
                &&& 0 <= e.2 < ls.len()
                &&& classify_of(ls, mk, e.2) == (e.0, e.1, e.3)
                &&& !is_blank_line(ls[e.2])
                &&& !mk[e.2]
            } by {
                if k > 0 {
                    assert(all[k] == rest[k - 1]);
                }
            }
        }
    }
}

/// A paragraph ends where any other block would start: no line of a paragraph after its first
/// is blank, an id-marker line, a fence, a heading, a thematic break, a list item or a quote.
pub proof fn lemma_paragraphs_hold_no_block_starts(src: Seq<char>, mk: Seq<Option<Seq<char>>>)
    requires
        mk.len() == lines(src).len(),
    ensures
        forall|k: int, j: int|
            0 <= k < doc_sections(src, mk).len() && (#[trigger] doc_sections(src, mk)[k]).0
                == BlockKind::Paragraph && doc_sections(src, mk)[k].2 < j < doc_sections(src, mk)[k].3
                ==> {
                let t = #[trigger] lines(src)[j];
                &&& !is_blank_line(t)
                &&& mk[j] is None
                &&& fence_of(t) is None
                &&& !is_heading_line(t)
                &&& !is_thematic_line(t)
                &&& !is_list_line(t)
                &&& !opens_with(t, '>')
            },
{
    let ls = lines(src);
    let fl = marker_flags(mk);
    let secs = doc_sections(src, mk);
    assert(body_start(ls) >= 0) by {
        match frontmatter_of(ls) {
            Some(f) => {
                lemma_fm_close(ls, 1);
            },
            None => {},
        }
    }
    lemma_sections_classified(ls, fl, body_start(ls), None);
    lemma_blocks_in_order(src, mk);
    assert forall|k: int, j: int|
        0 <= k < secs.len() && (#[trigger] secs[k]).0 == BlockKind::Paragraph && secs[k].2 < j < secs[k].3 implies {
        let t = #[trigger] ls[j];
        &&& !is_blank_line(t)
        &&& mk[j] is None
        &&& fence_of(t) is None
        &&& !is_heading_line(t)
        &&& !is_thematic_line(t)
        &&& !is_list_line(t)
        &&& !opens_with(t, '>')
    } by {
        let e = secs[k];
        assert(classify_of(ls, fl, e.2) == (e.0, e.1, e.3));
        assert(e.3 == para_end(ls, fl, e.2 + 1));
        lemma_para_end_clear(ls, fl, e.2 + 1);
        assert(!interrupts(ls[j], fl[j]));
        assert(fl[j] == mk[j] is Some);
    }
}

// ---------------------------------------------------------------------------------------------
// How far each kind of block reaches.
// ---------------------------------------------------------------------------------------------

/// Whether `t` closes a fence opened with `n` times `c`: a fence line of the same character,
/// at least as long, with nothing after it.
pub open spec fn closes_fence_of(t: Seq<char>, c: char, n: nat) -> bool {
    fence_of(t) matches Some(f) && f.0 == c && f.1 >= n && f.2.len() == 0
}

/// Whether line `t` (a marker line when `marker`) starts something that ends a paragraph.
pub open spec fn breaks_paragraph(t: Seq<char>, marker: bool) -> bool {
    ||| trim(t).len() == 0
    ||| marker
    ||| fence_of(t) is Some
    ||| is_heading_line(t)
    ||| is_thematic_line(t)
    ||| is_list_line(t)
    ||| opens_with(t, '>')
}

/// What the first line of a block says of its kind: a fence opens a code block; otherwise a
/// heading line a heading of its level; otherwise, in turn, a thematic break, a list item, a
/// `>` quote, a `<` HTML block; anything else a paragraph.
pub open spec fn kind_fits(t: Seq<char>, kind: BlockKind) -> bool {
    let fence = fence_of(t) is Some;
    let heading = !fence && heading_level_of(t) is Some;
    let thematic = !fence && !heading && is_thematic_line(t);
    let list = !fence && !heading && !thematic && is_list_line(t);
    let quote = !fence && !heading && !thematic && !list && opens_with(t, '>');
    let html = !fence && !heading && !thematic && !list && !quote && opens_with(t, '<');
    match kind {
        BlockKind::CodeFence => fence,
        BlockKind::Heading { level } => heading && level == heading_level_of(t)->0 as usize,
        BlockKind::ThematicBreak => thematic,
        BlockKind::ListItem => list,
        BlockKind::Quote => quote,
        BlockKind::Html => html,
        BlockKind::Paragraph => !fence && !heading && !thematic && !list && !quote && !html,
    }
}

/// The lines block `e` holds, as each kind promises: a heading or thematic break is one line;
/// a paragraph runs until a line that starts another block; a list item holds the following
/// non-blank lines indented deeper than its first; a quote the following non-blank `>` lines;
/// an HTML block the following non-blank lines up to a marker line; a code fence runs through
/// its closing fence, or to the end when it is never closed.
pub open spec fn extent_fits(ls: Seq<Seq<char>>, fl: Seq<bool>, e: SectionView) -> bool {
    let first = e.2;
    let end = e.3;
    let t = ls[first];
    match e.0 {
        BlockKind::Heading { .. } => end == first + 1,
        BlockKind::ThematicBreak => end == first + 1,
        BlockKind::Paragraph => {
            &&& forall|j: int| first < j < end ==> !breaks_paragraph(#[trigger] ls[j], fl[j])
            &&& end < ls.len() ==> breaks_paragraph(ls[end], fl[end])
        },
        BlockKind::ListItem => {
            &&& forall|j: int|
                first < j < end ==> trim(#[trigger] ls[j]).len() > 0 && indent_width(ls[j])
                    > indent_width(t)
            &&& end < ls.len() ==> trim(ls[end]).len() == 0 || indent_width(ls[end]) <= indent_width(t)
        },
        BlockKind::Quote => {
            &&& forall|j: int| first < j < end ==> trim(#[trigger] ls[j]).len() > 0 && opens_with(ls[j], '>')
            &&& end < ls.len() ==> trim(ls[end]).len() == 0 || !opens_with(ls[end], '>')
        },
        BlockKind::Html => {
            &&& forall|j: int| first < j < end ==> trim(#[trigger] ls[j]).len() > 0 && !fl[j]
            &&& end < ls.len() ==> trim(ls[end]).len() == 0 || fl[end]
        },
        BlockKind::CodeFence => {
            let f = fence_of(t)->0;
            let c = f.0;
            let n = f.1;
            ||| end == ls.len() && forall|j: int| first < j < end ==> !closes_fence_of(#[trigger] ls[j], c, n)
            ||| first + 1 < end && closes_fence_of(ls[end - 1], c, n) && forall|j: int|
                first < j < end - 1 ==> !closes_fence_of(#[trigger] ls[j], c, n)
        },
    }
}

proof fn lemma_para_end_stops(ls: Seq<Seq<char>>, mk: Seq<bool>, j: int)
    requires
        0 <= j <= ls.len(),
    ensures
        para_end(ls, mk, j) < ls.len() ==> interrupts(ls[para_end(ls, mk, j)], mk[para_end(ls, mk, j)]),
    decreases ls.len() - j,
{
    if j < ls.len() && !interrupts(ls[j], mk[j]) {
        lemma_para_end_stops(ls, mk, j + 1);
    }
}

proof fn lemma_list_end_facts(ls: Seq<Seq<char>>, indent: nat, j: int)
    requires
        0 <= j <= ls.len(),
    ensures
        forall|k: int|
            j <= k < list_end(ls, indent, j) ==> !is_blank_line(#[trigger] ls[k]) && indent_width(ls[k])
                > indent,
        list_end(ls, indent, j) < ls.len() ==> is_blank_line(ls[list_end(ls, indent, j)]) || indent_width(
            ls[list_end(ls, indent, j)],
        ) <= indent,
    decreases ls.len() - j,
{
    if j < ls.len() && !is_blank_line(ls[j]) && indent_width(ls[j]) > indent {
        lemma_list_end_facts(ls, indent, j + 1);
    }
}

proof fn lemma_quote_end_facts(ls: Seq<Seq<char>>, j: int)
    requires
        0 <= j <= ls.len(),
    ensures
        forall|k: int| j <= k < quote_end(ls, j) ==> !is_blank_line(#[trigger] ls[k]) && opens_with(ls[k], '>'),
        quote_end(ls, j) < ls.len() ==> is_blank_line(ls[quote_end(ls, j)]) || !opens_with(
            ls[quote_end(ls, j)],
            '>',
        ),
    decreases ls.len() - j,
{
    if j < ls.len() && !is_blank_line(ls[j]) && opens_with(ls[j], '>') {
        lemma_quote_end_facts(ls, j + 1);
    }
}

proof fn lemma_html_end_facts(ls: Seq<Seq<char>>, mk: Seq<bool>, j: int)
    requires
        0 <= j <= ls.len(),
    ensures
        forall|k: int| j <= k < html_end(ls, mk, j) ==> !is_blank_line(#[trigger] ls[k]) && !mk[k],
        html_end(ls, mk, j) < ls.len() ==> is_blank_line(ls[html_end(ls, mk, j)]) || mk[html_end(ls, mk, j)],
    decreases ls.len() - j,
{
    if j < ls.len() && !is_blank_line(ls[j]) && !mk[j] {
        lemma_html_end_facts(ls, mk, j + 1);
    }
}

proof fn lemma_fence_end_facts(ls: Seq<Seq<char>>, c: char, n: nat, j: int)
    requires
        0 <= j <= ls.len(),
    ensures
        ({
            let e = fence_end(ls, c, n, j);
            ||| e == ls.len() && forall|k: int| j <= k < e ==> !closes_fence_of(#[trigger] ls[k], c, n)
            ||| j < e && closes_fence_of(ls[e - 1], c, n) && forall|k: int|
                j <= k < e - 1 ==> !closes_fence_of(#[trigger] ls[k], c, n)
        }),
    decreases ls.len() - j,
{
    if j < ls.len() {
        if !closes_fence_of(ls[j], c, n) {
            lemma_fence_end_facts(ls, c, n, j + 1);
        }
    }
}

/// A block that [`classify_of`] delimits has the kind its first line calls for and reaches as
/// far as that kind does.
#[verifier::spinoff_prover]
proof fn lemma_section_extent(ls: Seq<Seq<char>>, fl: Seq<bool>, e: SectionView)
    requires
        0 <= e.2 < ls.len(),
        fl.len() == ls.len(),
        classify_of(ls, fl, e.2) == (e.0, e.1, e.3),
    ensures
        e.2 < e.3 <= ls.len(),
        kind_fits(ls[e.2], e.0),
        extent_fits(ls, fl, e),
{
    let t = ls[e.2];
    lemma_classify_end(ls, fl, e.2);
    match fence_of(t) {
        Some(f) => {
            lemma_fence_end_facts(ls, f.0, f.1, e.2 + 1);
        },
        None => {
            if heading_level_of(t) is None && !is_thematic_line(t) {
                if is_list_line(t) {
                    lemma_list_end_facts(ls, indent_width(t), e.2 + 1);
                } else if opens_with(t, '>') {
                    lemma_quote_end_facts(ls, e.2 + 1);
                } else if opens_with(t, '<') {
                    lemma_html_end_facts(ls, fl, e.2 + 1);
                } else {
                    lemma_para_end_clear(ls, fl, e.2 + 1);
                    lemma_para_end_stops(ls, fl, e.2 + 1);
                }
            }
        },
    }
}

/// Every block of a parsed document starts on a line that is neither blank nor an id marker,
/// has the kind its first line calls for, and reaches exactly as far as that kind does.
pub proof fn lemma_block_extents(src: Seq<char>, mk: Seq<Option<Seq<char>>>)
    requires
        mk.len() == lines(src).len(),
    ensures
        forall|k: int|
            0 <= k < doc_sections(src, mk).len() ==> {
                let e = #[trigger] doc_sections(src, mk)[k];
                &&& 0 <= e.2 < e.3 <= lines(src).len()
                &&& trim(lines(src)[e.2]).len() > 0
                &&& mk[e.2] is None
                &&& kind_fits(lines(src)[e.2], e.0)
                &&& extent_fits(lines(src), marker_flags(mk), e)
            },
{
    let ls = lines(src);
    let fl = marker_flags(mk);
    let secs = doc_sections(src, mk);
    assert(body_start(ls) >= 0) by {
        match frontmatter_of(ls) {
            Some(f) => {
                lemma_fm_close(ls, 1);
            },
            None => {},
        }
    }
    lemma_sections_classified(ls, fl, body_start(ls), None);
    assert forall|k: int| 0 <= k < secs.len() implies {
        let e = #[trigger] secs[k];
        &&& 0 <= e.2 < e.3 <= ls.len()
        &&& trim(ls[e.2]).len() > 0
        &&& mk[e.2] is None
        &&& kind_fits(ls[e.2], e.0)
        &&& extent_fits(ls, fl, e)
    } by {
        let e = secs[k];
        assert(classify_of(ls, fl, e.2) == (e.0, e.1, e.3));
        assert(fl[e.2] == mk[e.2] is Some);
        lemma_section_extent(ls, fl, e);
    }
}

// ---------------------------------------------------------------------------------------------
// Heading lineage from one block to the next.
// ---------------------------------------------------------------------------------------------

proof fn lemma_pop_to_below(st: Seq<(nat, Seq<char>)>, level: nat)
    ensures
        pop_to(st, level).len() > 0 ==> pop_to(st, level).last().0 < level,
        pop_to(pop_to(st, level), level) == pop_to(st, level),
    decreases st.len(),
{
    if st.len() > 0 && st.last().0 >= level {
        lemma_pop_to_below(st.drop_last(), level);
    }
}

/// How the heading lineage passes from block `k - 1` to block `k` of a parsed document: a block
/// right after a heading is enclosed by that heading too (when it is a deeper heading or no
/// heading at all), a heading right after one of the same level is its sibling and shares its
/// lineage, and a block that is no heading, after one that is no heading either, keeps the
/// lineage unchanged.
pub proof fn lemma_lineage_steps(src: Seq<char>, mk: Seq<Option<Seq<char>>>, k: int)
    requires
        0 < k < doc_sections(src, mk).len(),
    ensures
        ({
            let ls = lines(src);
            let secs = doc_sections(src, mk);
            let prev = lineage_at(ls, secs, k - 1);
            let cur = lineage_at(ls, secs, k);
            &&& (secs[k - 1].0 matches BlockKind::Heading { level: l1 } && (secs[k].0 matches BlockKind::Heading {
                level: l2,
            } ==> l1 < l2)) ==> cur == prev.push(heading_text_of(ls[secs[k - 1].2]))
            &&& (secs[k - 1].0 matches BlockKind::Heading { level: l1 } && secs[k].0 matches BlockKind::Heading {
                level: l2,
            } && l1 == l2) ==> cur == prev
            &&& (!(secs[k - 1].0 is Heading) && !(secs[k].0 is Heading)) ==> cur == prev
        }),
{
    let ls = lines(src);
    let secs = doc_sections(src, mk);
    let st = heading_stack(ls, secs, k - 1);
    let top = heading_stack(ls, secs, k);
    match secs[k - 1].0 {
        BlockKind::Heading { level } => {
            let l1 = level as nat;
            let h = heading_text_of(ls[secs[k - 1].2]);
            let popped = pop_to(st, l1);
            lemma_pop_to_below(st, l1);
            assert(top == popped.push((l1, h)));
            assert(lineage_at(ls, secs, k - 1) == popped.map_values(|e: (nat, Seq<char>)| e.1));
            match secs[k].0 {
                BlockKind::Heading { level: l2 } => {
                    if level < l2 {
                        assert(pop_to(top, l2 as nat) == top);
                        assert(top.map_values(|e: (nat, Seq<char>)| e.1) =~= popped.map_values(
                            |e: (nat, Seq<char>)| e.1,
                        ).push(h));
                    }
                    if level == l2 {
                        assert(top.drop_last() =~= popped);
                        assert(pop_to(top, l1) == pop_to(popped, l1));
                    }
                },
                _ => {
                    assert(top.map_values(|e: (nat, Seq<char>)| e.1) =~= popped.map_values(
                        |e: (nat, Seq<char>)| e.1,
                    ).push(h));
                },
            }
        },
        _ => {
            assert(top == st);
        },
    }
}

// ---------------------------------------------------------------------------------------------
// Where a block's tags come from.
// ---------------------------------------------------------------------------------------------

/// Whether no entry of `tags` occurs twice.
pub open spec fn distinct_tags(tags: Seq<(Seq<char>, TagSource)>) -> bool {
    forall|i: int, j: int| 0 <= i < j < tags.len() ==> tags[i] != tags[j]
}

proof fn lemma_add_tag(tags: Seq<(Seq<char>, TagSource)>, name: Seq<char>, src: TagSource)
    requires
        distinct_tags(tags),
    ensures
        distinct_tags(add_tag_of(tags, name, src)),
        forall|p: (Seq<char>, TagSource)|
            add_tag_of(tags, name, src).contains(p) <==> tags.contains(p) || (p == (name, src) && name.len()
                > 0),
{
    let r = add_tag_of(tags, name, src);
    if name.len() > 0 && !tags.contains((name, src)) {
        assert forall|p: (Seq<char>, TagSource)| r.contains(p) <==> tags.contains(p) || (p == (name, src)
            && name.len() > 0) by {
            if r.contains(p) {
                let k = choose|k: int| 0 <= k < r.len() && r[k] == p;
                if k < tags.len() {
                    assert(tags[k] == p);
                }
            }
            if tags.contains(p) {
                let k = choose|k: int| 0 <= k < tags.len() && tags[k] == p;
                assert(r[k] == p);
            }
            if p == (name, src) {
                assert(r[tags.len() as int] == p);
            }
        }
        assert forall|i: int, j: int| 0 <= i < j < r.len() implies r[i] != r[j] by {
            if j == tags.len() {
                assert(r[i] == tags[i]);
            }
        }
    }
}

proof fn lemma_add_names(tags: Seq<(Seq<char>, TagSource)>, names: Seq<Seq<char>>, src: TagSource, i: int)
    requires
        0 <= i <= names.len(),
        distinct_tags(tags),
    ensures
        distinct_tags(add_names_from(tags, names, src, i)),
        forall|p: (Seq<char>, TagSource)|
            #![trigger add_names_from(tags, names, src, i).contains(p)]
            add_names_from(tags, names, src, i).contains(p) <==> tags.contains(p) || (p.1 == src && p.0.len()
                > 0 && exists|j: int| i <= j < names.len() && #[trigger] names[j] == p.0),
    decreases names.len() - i,
{
    if i < names.len() {
        let t2 = add_tag_of(tags, names[i], src);
        lemma_add_tag(tags, names[i], src);
        lemma_add_names(t2, names, src, i + 1);
        let r = add_names_from(tags, names, src, i);
        assert(r == add_names_from(t2, names, src, i + 1));
        assert forall|p: (Seq<char>, TagSource)|
            r.contains(p) <==> tags.contains(p) || (p.1 == src && p.0.len() > 0 && exists|j: int|
                i <= j < names.len() && #[trigger] names[j] == p.0) by {
            if r.contains(p) {
                if t2.contains(p) {
                    if !tags.contains(p) {
                        assert(p == (names[i], src));
                        assert(names[i] == p.0);
                    }
                } else {
                    let j = choose|j: int| i + 1 <= j < names.len() && #[trigger] names[j] == p.0;
                    assert(names[j] == p.0);
                }
            }
            if tags.contains(p) {
                assert(t2.contains(p));
            }
            if p.1 == src && p.0.len() > 0 && exists|j: int| i <= j < names.len() && #[trigger] names[j] == p.0 {
                let j = choose|j: int| i <= j < names.len() && #[trigger] names[j] == p.0;
                if j == i {
                    assert(p == (names[i], src));
                    assert(t2.contains(p));
                } else {
                    assert(names[j] == p.0);
                }
            }
        }
    }
}

proof fn lemma_add_caps(tags: Seq<(Seq<char>, TagSource)>, caps: Seq<Option<Seq<char>>>, i: int)
    requires
        0 <= i <= caps.len(),
        distinct_tags(tags),
    ensures
        distinct_tags(add_caps_from(tags, caps, i)),
        forall|p: (Seq<char>, TagSource)|
            #![trigger add_caps_from(tags, caps, i).contains(p)]
            add_caps_from(tags, caps, i).contains(p) <==> tags.contains(p) || (p.1 == TagSource::Inline
                && p.0.len() > 0 && exists|j: int| i <= j < caps.len() && #[trigger] caps[j] == Some(p.0)),
    decreases caps.len() - i,
{
    if i < caps.len() {
        let t2 = match caps[i] {
            Some(n) => add_tag_of(tags, n, TagSource::Inline),
            None => tags,
        };
        if let Some(n) = caps[i] {
            lemma_add_tag(tags, n, TagSource::Inline);
        }
        lemma_add_caps(t2, caps, i + 1);
        let r = add_caps_from(tags, caps, i);
        assert(r == add_caps_from(t2, caps, i + 1));
        assert forall|p: (Seq<char>, TagSource)|
            r.contains(p) <==> tags.contains(p) || (p.1 == TagSource::Inline && p.0.len() > 0 && exists|j: int|
                i <= j < caps.len() && #[trigger] caps[j] == Some(p.0)) by {
            if r.contains(p) {
                if t2.contains(p) {
                    if !tags.contains(p) {
                        assert(caps[i] == Some(p.0));
                    }
                } else {
                    let j = choose|j: int| i + 1 <= j < caps.len() && #[trigger] caps[j] == Some(p.0);
                    assert(caps[j] == Some(p.0));
                }
            }
            if tags.contains(p) {
                assert(t2.contains(p));
            }
            if p.1 == TagSource::Inline && p.0.len() > 0 && exists|j: int|
                i <= j < caps.len() && #[trigger] caps[j] == Some(p.0) {
                let j = choose|j: int| i <= j < caps.len() && #[trigger] caps[j] == Some(p.0);
                if j == i {
                    assert(p == (p.0, TagSource::Inline));
                    assert(t2.contains(p));
                } else {
                    assert(caps[j] == Some(p.0));
                }
            }
        }
    }
}

/// A block's tags, each once: the frontmatter's non-empty tags (source `Frontmatter`); for a
/// code fence its language and nothing else (source `Lang`), so `#words` inside code are never
/// tags; for any other block the names its inline `#tag`s capture (source `Inline`).
pub proof fn lemma_block_tag_sources(
    fm: Seq<Seq<char>>,
    kind: BlockKind,
    lang: Option<Seq<char>>,
    content: Seq<char>,
)
    ensures
        distinct_tags(block_tags_of(fm, kind, lang, content)),
        forall|n: Seq<char>|
            block_tags_of(fm, kind, lang, content).contains((n, TagSource::Frontmatter)) <==> n.len() > 0
                && fm.contains(n),
        forall|n: Seq<char>|
            block_tags_of(fm, kind, lang, content).contains((n, TagSource::Lang)) <==> kind
                == BlockKind::CodeFence && lang == Some(n) && n.len() > 0,
        forall|n: Seq<char>|
            block_tags_of(fm, kind, lang, content).contains((n, TagSource::Inline)) <==> kind
                != BlockKind::CodeFence && n.len() > 0 && (regex_group_texts(
                inline_tag_pattern(),
                content,
                1,
            ) matches Some(caps) && caps.contains(Some(n))),
{
    let t0 = Seq::<(Seq<char>, TagSource)>::empty();
    let t1 = add_names_from(t0, fm, TagSource::Frontmatter, 0);
    lemma_add_names(t0, fm, TagSource::Frontmatter, 0);
    assert forall|p: (Seq<char>, TagSource)| #[trigger] t1.contains(p) implies p.1 == TagSource::Frontmatter
        && p.0.len() > 0 && fm.contains(p.0) by {
        assert(!t0.contains(p));
        let j = choose|j: int| 0 <= j < fm.len() && #[trigger] fm[j] == p.0;
        assert(fm[j] == p.0);
    }
    assert forall|n: Seq<char>| n.len() > 0 && fm.contains(n) implies #[trigger] t1.contains(
        (n, TagSource::Frontmatter),
    ) by {
        let p = (n, TagSource::Frontmatter);
        let j = choose|j: int| 0 <= j < fm.len() && fm[j] == n;
        assert(fm[j] == p.0);
    }
    let r = block_tags_of(fm, kind, lang, content);
    if kind == BlockKind::CodeFence {
        match lang {
            Some(l) => {
                lemma_add_tag(t1, l, TagSource::Lang);
                assert(r == add_tag_of(t1, l, TagSource::Lang));
                assert forall|n: Seq<char>| #[trigger] r.contains((n, TagSource::Frontmatter)) <==> t1.contains(
                    (n, TagSource::Frontmatter),
                ) by {
                    assert((n, TagSource::Frontmatter) != (l, TagSource::Lang));
                }
                assert forall|n: Seq<char>| #[trigger] r.contains((n, TagSource::Lang)) <==> (lang == Some(n)
                    && n.len() > 0) by {
                    if t1.contains((n, TagSource::Lang)) {
                        assert(false);
                    }
                }
                assert forall|n: Seq<char>| !(#[trigger] r.contains((n, TagSource::Inline))) by {
                    if t1.contains((n, TagSource::Inline)) {
                        assert(false);
                    }
                    assert((n, TagSource::Inline) != (l, TagSource::Lang));
                }
            },
            None => {
                assert(r == t1);
                assert forall|n: Seq<char>| !(#[trigger] r.contains((n, TagSource::Lang))) by {
                    if t1.contains((n, TagSource::Lang)) {
                        assert(false);
                    }
                }
                assert forall|n: Seq<char>| !(#[trigger] r.contains((n, TagSource::Inline))) by {
                    if t1.contains((n, TagSource::Inline)) {
                        assert(false);
                    }
                }
            },
        }
    } else {
        match regex_group_texts(inline_tag_pattern(), content, 1) {
            Some(caps) => {
                lemma_add_caps(t1, caps, 0);
                assert(r == add_caps_from(t1, caps, 0));
                assert forall|n: Seq<char>| #[trigger] r.contains((n, TagSource::Frontmatter)) <==> t1.contains(
                    (n, TagSource::Frontmatter),
                ) by {}
                assert forall|n: Seq<char>| !(#[trigger] r.contains((n, TagSource::Lang))) by {
                    if t1.contains((n, TagSource::Lang)) {
                        assert(false);
                    }
                }
                assert forall|n: Seq<char>| #[trigger] r.contains((n, TagSource::Inline)) <==> n.len() > 0
                    && caps.contains(Some(n)) by {
                    let p = (n, TagSource::Inline);
                    if n.len() > 0 && caps.contains(Some(n)) {
                        let j = choose|j: int| 0 <= j < caps.len() && caps[j] == Some(n);
                        assert(caps[j] == Some(p.0));
                    }
                    if r.contains(p) {
                        if !t1.contains(p) {
                            let j = choose|j: int| 0 <= j < caps.len() && #[trigger] caps[j] == Some(p.0);
                            assert(caps[j] == Some(n));
                        }
                    }
                }
            },
            None => {
                assert(r == t1);
                assert forall|n: Seq<char>| !(#[trigger] r.contains((n, TagSource::Lang))) by {
                    if t1.contains((n, TagSource::Lang)) {
                        assert(false);
                    }
                }
                assert forall|n: Seq<char>| !(#[trigger] r.contains((n, TagSource::Inline))) by {
                    if t1.contains((n, TagSource::Inline)) {
                        assert(false);
                    }
                }
            },
        }
    }
}

// ---------------------------------------------------------------------------------------------
// Tags a document's frontmatter declares.
// ---------------------------------------------------------------------------------------------

/// A tag as it may stand bare in frontmatter: not empty, with no whitespace, comma, quote, `#`
/// or bracket.
pub open spec fn bare_doc_tag(x: Seq<char>) -> bool {
    &&& x.len() > 0
    &&& forall|k: int|
        0 <= k < x.len() ==> {
            let c = #[trigger] x[k];
            !is_ws(c) && c != ',' && c != '"' && c != '\'' && c != '#' && c != '[' && c != ']'
        }
}

proof fn lemma_unpadded(s: Seq<char>)
    requires
        s.len() > 0,
        !is_ws(s[0]),
        !is_ws(s.last()),
    ensures
        trim_start(s) == s,
        trim(s) == s,
{
    assert(trim_start(s) == s);
    assert(crate::text::trim_end(s) == s);
}

proof fn lemma_bare_doc_tag(x: Seq<char>)
    requires
        bare_doc_tag(x),
    ensures
        clean_tag(x) == x,
        clean_tag(seq![' '] + x) == x,
{
    assert(!is_ws(x[0]) && !is_ws(x[x.len() - 1]));
    lemma_unpadded(x);
    assert(strip_start_by(x, CharClass::TagMark) == x);
    assert(strip_end_by(x, CharClass::TagMark) == x);
    let sp = seq![' '] + x;
    assert(sp.drop_first() =~= x);
    assert(trim_start(sp) == trim_start(x));
    assert(crate::text::trim_end(x) == x);
}

proof fn lemma_find_by_first(s: Seq<char>, f: CharClass, i: int, k: int)
    requires
        0 <= i <= k <= s.len(),
        forall|j: int| i <= j < k ==> !class_has(f, #[trigger] s[j]),
        k < s.len() ==> class_has(f, s[k]),
    ensures
        find_by(s, f, i) == k,
    decreases k - i,
{
    if i < k {
        lemma_find_by_first(s, f, i + 1, k);
    }
}

/// Pushing the two pieces of `x` + `sep` + `y`, split at the class `f` that holds `sep[0]`.
proof fn lemma_push_two(x: Seq<char>, sep: Seq<char>, y: Seq<char>, f: CharClass)
    requires
        bare_doc_tag(x),
        bare_doc_tag(y),
        x != y,
        sep == seq![' '] || sep == seq![','] || sep == seq![',', ' '],
        class_has(f, sep[0]),
        sep.len() == 2 ==> !class_has(f, ' '),
        forall|k: int| 0 <= k < x.len() ==> !class_has(f, #[trigger] x[k]),
        forall|k: int| 0 <= k < y.len() ==> !class_has(f, #[trigger] y[k]),
    ensures
        push_split_from(seq![], x + sep + y, f, 0) == seq![x, y],
{
    let s = x + sep + y;
    let n = x.len() as int;
    lemma_bare_doc_tag(x);
    lemma_bare_doc_tag(y);
    assert forall|j: int| 0 <= j < n implies !class_has(f, #[trigger] s[j]) by {
        assert(s[j] == x[j]);
    }
    assert(s[n] == sep[0]);
    lemma_find_by_first(s, f, 0, n);
    assert(s.subrange(0, n) =~= x);
    let t1 = push_tag_of(seq![], x);
    assert(t1 == seq![x]);
    let rest = sep.drop_first() + y;
    assert forall|j: int| n + 1 <= j < s.len() implies !class_has(f, #[trigger] s[j]) by {
        if j < n + sep.len() {
            assert(s[j] == sep[j - n]);
            assert(sep[j - n] == ' ');
        } else {
            assert(s[j] == y[j - n - sep.len()]);
        }
    }
    lemma_find_by_first(s, f, n + 1, s.len() as int);
    assert(s.subrange(n + 1, s.len() as int) =~= rest);
    if sep.len() == 2 {
        assert(rest =~= seq![' '] + y);
    } else {
        assert(rest =~= y);
    }
    assert(clean_tag(rest) == y);
    assert(!seq![x].contains(y)) by {
        if seq![x].contains(y) {
            assert(seq![x][0] == y);
        }
    }
    assert(push_tag_of(t1, rest) == seq![x, y]);
    assert(push_split_from(t1, s, f, n + 1) == push_tag_of(t1, s.subrange(n + 1, s.len() as int)));
    assert(push_split_from(seq![], s, f, 0) == push_split_from(t1, s, f, n + 1));
}

/// The document frontmatter `---` / `line` / `---`, before any body: it closes on its third
/// line, and what `line` declares is what the frontmatter's tags are.
proof fn lemma_one_line_frontmatter(line: Seq<char>, body: Seq<Seq<char>>)
    requires
        line.len() > 0,
        line[0] == 't',
    ensures
        frontmatter_of(seq!["---"@, line, "---"@] + body) == Some((2int, fm_tags_of(seq![], seq!["---"@, line, "---"@] + body, 1, 2))),
{
    reveal_strlit("---");
    let ls = seq!["---"@, line, "---"@] + body;
    assert(ls[0] == "---"@ && ls[1] == line && ls[2] == "---"@);
    lemma_unpadded("---"@);
    assert(!is_fm_close(line)) by {
        assert(trim_start(line) == line);
        if line.len() > 0 {
            let tl = trim(line);
            assert(tl == crate::text::trim_end(line));
            if tl == "---"@ || tl == "..."@ {
                reveal_strlit("...");
                assert(crate::text::trim_end(line).len() > 0);
                lemma_trim_end_first(line);
            }
        }
    }
    assert(trim(ls[2]) == "---"@);
    assert(is_fm_close(ls[2]));
    assert(fm_close(ls, 2) == 2);
    assert(fm_close(ls, 1) == fm_close(ls, 2));
}

proof fn lemma_trim_end_first(s: Seq<char>)
    requires
        s.len() > 0,
        !is_ws(s[0]),
    ensures
        crate::text::trim_end(s).len() > 0,
        crate::text::trim_end(s)[0] == s[0],
    decreases s.len(),
{
    if is_ws(s.last()) {
        assert(s.len() > 1);
        lemma_trim_end_first(s.drop_last());
    }
}

/// Frontmatter tags written `tags: x y` (separated by whitespace) are the two words, in order.
pub proof fn lemma_frontmatter_space_tags(x: Seq<char>, y: Seq<char>, body: Seq<Seq<char>>)
    requires
        bare_doc_tag(x),
        bare_doc_tag(y),
        x != y,
    ensures
        frontmatter_of(seq!["---"@, "tags: "@ + x + seq![' '] + y, "---"@] + body) == Some(
            (2int, seq![x, y]),
        ),
{
    reveal_strlit("tags: ");
    reveal_strlit("tags:");
    let line = "tags: "@ + x + seq![' '] + y;
    let ls = seq!["---"@, line, "---"@] + body;
    assert(line[0] == 't');
    lemma_one_line_frontmatter(line, body);
    assert(ls[1] == line);
    assert(line.last() == y.last());
    assert(!is_ws(y[y.len() - 1]));
    lemma_unpadded(line);
    assert(line.take(5) =~= "tags:"@);
    let v = x + seq![' '] + y;
    assert(line.skip(5) =~= seq![' '] + v);
    assert((seq![' '] + v).drop_first() =~= v);
    assert(v[0] == x[0] && v.last() == y.last());
    assert(!is_ws(x[0]));
    lemma_unpadded(v);
    assert(trim_start(seq![' '] + v) == trim_start(v));
    assert(trim(line.skip(5)) == v);
    assert(v[0] != '[');
    assert forall|k: int| 0 <= k < x.len() implies !class_has(CharClass::CommaOrSpace, #[trigger] x[k]) by {
        assert(!is_ws(x[k]) && x[k] != ',');
    }
    assert forall|k: int| 0 <= k < y.len() implies !class_has(CharClass::CommaOrSpace, #[trigger] y[k]) by {
        assert(!is_ws(y[k]) && y[k] != ',');
    }
    lemma_push_two(x, seq![' '], y, CharClass::CommaOrSpace);
    assert(fm_tags_of(seq![x, y], ls, 2, 2) == seq![x, y]);
}

/// Frontmatter tags written as a flow list `tags: [x, y]` are its two items, in order.
pub proof fn lemma_frontmatter_flow_tags(x: Seq<char>, y: Seq<char>, body: Seq<Seq<char>>)
    requires
        bare_doc_tag(x),
        bare_doc_tag(y),
        x != y,
    ensures
        frontmatter_of(seq!["---"@, "tags: ["@ + x + seq![',', ' '] + y + seq![']'], "---"@] + body)
            == Some((2int, seq![x, y])),
{
    reveal_strlit("tags: [");
    reveal_strlit("tags:");
    let line = "tags: ["@ + x + seq![',', ' '] + y + seq![']'];
    let ls = seq!["---"@, line, "---"@] + body;
    assert(line[0] == 't');
    lemma_one_line_frontmatter(line, body);
    assert(ls[1] == line);
    lemma_unpadded(line);
    assert(line.take(5) =~= "tags:"@);
    let v = seq!['['] + x + seq![',', ' '] + y + seq![']'];
    assert(line.skip(5) =~= seq![' '] + v);
    assert((seq![' '] + v).drop_first() =~= v);
    lemma_unpadded(v);
    assert(trim_start(seq![' '] + v) == trim_start(v));
    assert(trim(line.skip(5)) == v);
    let inner = x + seq![',', ' '] + y;
    assert(v.drop_first() =~= seq![] + inner + seq![']']);
    assert(!class_has(CharClass::Open, x[0]));
    assert(strip_start_by(v, CharClass::Open) == strip_start_by(v.drop_first(), CharClass::Open));
    assert(strip_start_by(v.drop_first(), CharClass::Open) == v.drop_first());
    assert(v.drop_first().drop_last() =~= inner);
    assert(!class_has(CharClass::Close, y.last()));
    assert(inner.last() == y.last());
    assert(strip_end_by(v.drop_first(), CharClass::Close) == strip_end_by(inner, CharClass::Close));
    assert(strip_end_by(inner, CharClass::Close) == inner);
    assert forall|k: int| 0 <= k < x.len() implies !class_has(CharClass::Comma, #[trigger] x[k]) by {
        assert(x[k] != ',');
    }
    assert forall|k: int| 0 <= k < y.len() implies !class_has(CharClass::Comma, #[trigger] y[k]) by {
        assert(y[k] != ',');
    }
    lemma_push_two(x, seq![',', ' '], y, CharClass::Comma);
    assert(fm_tags_of(seq![x, y], ls, 2, 2) == seq![x, y]);
}

/// Frontmatter tags written as a block list, `tags:` then one `- x` line per tag, are the
/// listed tags, in order.
pub proof fn lemma_frontmatter_block_tags(x: Seq<char>, y: Seq<char>, body: Seq<Seq<char>>)
    requires
        bare_doc_tag(x),
        bare_doc_tag(y),
        x != y,
    ensures
        frontmatter_of(seq!["---"@, "tags:"@, "- "@ + x, "- "@ + y, "---"@] + body) == Some(
            (4int, seq![x, y]),
        ),
{
    reveal_strlit("---");
    reveal_strlit("...");
    reveal_strlit("tags:");
    reveal_strlit("- ");
    let lx = "- "@ + x;
    let ly = "- "@ + y;
    let ls = seq!["---"@, "tags:"@, lx, ly, "---"@] + body;
    assert(ls[0] == "---"@ && ls[1] == "tags:"@ && ls[2] == lx && ls[3] == ly && ls[4] == "---"@);
    lemma_unpadded("---"@);
    lemma_unpadded("tags:"@);
    assert(lx.last() == x.last() && ly.last() == y.last());
    assert(!is_ws(x[x.len() - 1]) && !is_ws(y[y.len() - 1]));
    lemma_unpadded(lx);
    lemma_unpadded(ly);
    assert(lx[1] == ' ' && ly[1] == ' ');
    assert(!is_fm_close(ls[1]));
    assert(!is_fm_close(ls[2]));
    assert(!is_fm_close(ls[3]));
    assert(is_fm_close(ls[4]));
    assert(fm_close(ls, 4) == 4);
    assert(fm_close(ls, 3) == 4);
    assert(fm_close(ls, 2) == 4);
    assert(fm_close(ls, 1) == 4);
    assert(trim_start(ls[1]) == "tags:"@);
    assert(starts_with("tags:"@, "tags:"@)) by {
        assert("tags:"@.take(5) =~= "tags:"@);
    }
    assert("tags:"@.skip(5) =~= Seq::<char>::empty());
    assert(trim(Seq::<char>::empty()) =~= Seq::<char>::empty());
    assert(lx.take(2) =~= "- "@ && ly.take(2) =~= "- "@);
    assert(lx.skip(2) =~= x && ly.skip(2) =~= y);
    assert(item_list_end(ls, 4, 4) == 4);
    assert(item_list_end(ls, 3, 4) == 4);
    assert(item_list_end(ls, 2, 4) == 4);
    lemma_bare_doc_tag(x);
    lemma_bare_doc_tag(y);
    let t1 = push_tag_of(seq![], x);
    assert(t1 == seq![x]);
    assert(!seq![x].contains(y)) by {
        if seq![x].contains(y) {
            assert(seq![x][0] == y);
        }
    }
    assert(push_tag_of(t1, y) == seq![x, y]);
    assert(push_items(seq![x, y], ls, 4, 4) == seq![x, y]);
    assert(push_items(t1, ls, 3, 4) == seq![x, y]);
    assert(push_items(seq![], ls, 2, 4) == seq![x, y]);
    assert(fm_tags_of(seq![x, y], ls, 4, 4) == seq![x, y]);
    assert(fm_tags_of(seq![], ls, 1, 4) == seq![x, y]);
}

} // verus!
