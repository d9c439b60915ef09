//! Rendering a block to Markdown, with children (`![[...]]`) expanded and references
//! (`[[...]]`) turned into navigable links.
//!
//! An embedding block stores only the directive; rendering pulls the *current* content of the
//! target block, recursively, so editing a block once is reflected wherever it is embedded.
//!
//! - `[[target]]` becomes a Markdown link `[label](mdkb:<id>)`; a dangling target links to
//!   `mdkb:?unresolved`.
//! - `![[target]]` becomes a block-quoted embed card whose header links to the source block and
//!   whose body is the live rendering of the target.
//!
//! Rendering is total: a cycle renders up to the repeat and emits a link and a note, and a
//! dangling target renders an inline note. The flat variant dissolves embeds inline for export.

use vstd::prelude::*;
use crate::block::{
    display_title_for, display_title_of, lemma_references_placed, opt_str_view, refs_well_placed,
    Block,
};
use crate::blockfile::trim_start_newlines;
use crate::id::BlockId;
use crate::link::{extract_references, label_of, references_of, refs_view, RefSpec, Reference};
use crate::text::{
    chars_eq, chars_of, copy_range, find_char, find_char_from, lemma_find_char_from, line_spans,
    lines, next_line, push_all, push_range, push_str, replace_all, replace_chars, string_from,
};
use crate::vault::{contains_id, ids_view, index_of_id, lemma_index_from, lemma_resolve_in_exists, resolve_in, Vault};

verus! {

// ---------------------------------------------------------------------------------------------
// Splitting and joining.
// ---------------------------------------------------------------------------------------------

/// The pieces of `s[i..]` between occurrences of `c` (`str::split`: at least one piece).
pub open spec fn split_from(s: Seq<char>, c: char, i: int) -> Seq<Seq<char>>
    decreases s.len() + 1 - i,
    via split_from_decreases
{
    if i < 0 || i > s.len() {
        seq![]
    } else if find_char_from(s, c, i) >= s.len() {
        seq![s.subrange(i, s.len() as int)]
    } else {
        seq![s.subrange(i, find_char_from(s, c, i))] + split_from(s, c, find_char_from(s, c, i) + 1)
    }
}

#[via_fn]
proof fn split_from_decreases(s: Seq<char>, c: char, i: int) {
    if 0 <= i <= s.len() {
        lemma_find_char_from(s, c, i);
    }
}

/// `s.split(c)`.
pub open spec fn split_on(s: Seq<char>, c: char) -> Seq<Seq<char>> {
    split_from(s, c, 0)
}

pub open spec fn parts_view(v: Seq<Vec<char>>) -> Seq<Seq<char>> {
    v.map_values(|p: Vec<char>| p@)
}

/// The pieces of `s` between occurrences of `c`.
pub(crate) fn split_exec(s: &Vec<char>, c: char) -> (r: Vec<Vec<char>>)
    ensures
        parts_view(r@) == split_on(s@, c),
        r@.len() >= 1,
{
    let mut out: Vec<Vec<char>> = Vec::new();
    let mut i: usize = 0;
    loop
        invariant
            i <= s@.len(),
            parts_view(out@) + split_from(s@, c, i as int) == split_on(s@, c),
        decreases s@.len() + 1 - i,
    {
        let e = find_char(s, c, i, s.len());
        proof {
            lemma_find_char_from(s@, c, i as int);
        }
        let ghost before = parts_view(out@);
        if e >= s.len() {
            out.push(copy_range(s, i, s.len()));
            assert(parts_view(out@) =~= before + split_from(s@, c, i as int));
            return out;
        }
        out.push(copy_range(s, i, e));
        assert(parts_view(out@) + split_from(s@, c, e + 1) =~= before + split_from(s@, c, i as int));
        i = e + 1;
    }
}

/// The pieces joined by `/`.
pub open spec fn join_slash(ps: Seq<Seq<char>>) -> Seq<char>
    decreases ps.len(),
{
    if ps.len() == 0 {
        seq![]
    } else if ps.len() == 1 {
        ps[0]
    } else {
        join_slash(ps.drop_last()) + seq!['/'] + ps.last()
    }
}

/// How many leading directories `a` shares with the directory part of `b`, counting from `c`.
pub open spec fn common_len(a: Seq<Seq<char>>, b: Seq<Seq<char>>, c: int) -> int
    decreases a.len() - c,
{
    if 0 <= c && c < a.len() && c + 1 < b.len() && a[c] == b[c] {
        common_len(a, b, c + 1)
    } else {
        c
    }
}

/// `n` repetitions of `../`.
pub open spec fn ups(n: nat) -> Seq<char>
    decreases n,
{
    if n == 0 {
        seq![]
    } else {
        ups((n - 1) as nat) + seq!['.', '.', '/']
    }
}

/// The relative link from the directory of `from` to the file `to`.
pub open spec fn relative_link_of(from: Seq<char>, to: Seq<char>) -> Seq<char> {
    let dirs = split_on(from, '/').drop_last();
    let parts = split_on(to, '/');
    let c = common_len(dirs, parts, 0);
    ups((dirs.len() - c) as nat) + join_slash(parts.skip(c))
}

/// Build a relative link from the directory of `from` to the file `to` (both relative to the
/// export root, `/`-separated), so co-exported docs in different directories can cross-link.
pub fn relative_link(from: &str, to: &str) -> (r: String)
    ensures
        r@ == relative_link_of(from@, to@),
{
    let fv = chars_of(from);
    let tv = chars_of(to);
    let fp = split_exec(&fv, '/');
    let tp = split_exec(&tv, '/');
    let ghost dirs = split_on(fv@, '/').drop_last();
    let ghost parts = split_on(tv@, '/');
    let nd = fp.len() - 1;
    let mut common: usize = 0;
    while common < nd && common + 1 < tp.len() && chars_eq(&fp[common], &tp[common])
        invariant
            nd == dirs.len(),
            dirs == split_on(fv@, '/').drop_last(),
            fp@.len() == nd + 1,
            common <= tp@.len(),
            parts_view(fp@) == split_on(fv@, '/'),
            parts_view(tp@) == parts,
            common <= nd,
            common_len(dirs, parts, 0) == common_len(dirs, parts, common as int),
        decreases nd - common,
    {
        assert(parts_view(fp@)[common as int] == fp@[common as int]@);
        assert(parts_view(tp@)[common as int] == tp@[common as int]@);
        common += 1;
    }
    proof {
        if common < nd && common + 1 < tp@.len() {
            assert(parts_view(fp@)[common as int] == fp@[common as int]@);
            assert(parts_view(tp@)[common as int] == tp@[common as int]@);
        }
    }
    let mut out: Vec<char> = Vec::new();
    let mut u: usize = 0;
    while u < nd - common
        invariant
            u <= nd - common,
            out@ == ups(u as nat),
        decreases nd - common - u,
    {
        out.push('.');
        out.push('.');
        out.push('/');
        assert(out@ =~= ups((u + 1) as nat));
        u += 1;
    }
    let ghost pre = out@;
    let mut k: usize = common;
    while k < tp.len()
        invariant
            common <= k <= tp@.len(),
            common <= tp@.len(),
            parts_view(tp@) == parts,
            out@ == pre + join_slash(parts.subrange(common as int, k as int)),
        decreases tp.len() - k,
    {
        let ghost before = out@;
        if k > common {
            out.push('/');
        }
        push_all(&mut out, &tp[k]);
        proof {
            let sub = parts.subrange(common as int, k + 1);
            assert(sub.drop_last() =~= parts.subrange(common as int, k as int));
            assert(sub.last() == tp@[k as int]@);
            if k == common {
                assert(join_slash(parts.subrange(common as int, k as int)) =~= Seq::<char>::empty());
                assert(out@ =~= pre + join_slash(sub));
            } else {
                assert(out@ =~= pre + join_slash(sub));
            }
        }
        k += 1;
    }
    assert(parts.subrange(common as int, tp@.len() as int) =~= parts.skip(common as int));
    string_from(&out)
}

// ---------------------------------------------------------------------------------------------
// Small text helpers.
// ---------------------------------------------------------------------------------------------

/// `s` with `\`, `[` and `]` backslash-escaped, so it can stand as Markdown link text.
pub open spec fn escape_link(s: Seq<char>) -> Seq<char> {
    replace_all(
        replace_all(replace_all(s, seq!['\\'], seq!['\\', '\\']), seq!['['], seq!['\\', '[']),
        seq![']'],
        seq!['\\', ']'],
    )
}

fn chars1(a: char) -> (r: Vec<char>)
    ensures
        r@ == seq![a],
{
    let mut v: Vec<char> = Vec::new();
    v.push(a);
    assert(v@ =~= seq![a]);
    v
}

fn chars2(a: char, b: char) -> (r: Vec<char>)
    ensures
        r@ == seq![a, b],
{
    let mut v: Vec<char> = Vec::new();
    v.push(a);
    v.push(b);
    assert(v@ =~= seq![a, b]);
    v
}

fn escape_link_text(s: &Vec<char>) -> (r: Vec<char>)
    ensures
        r@ == escape_link(s@),
{
    let a = replace_chars(s, &chars1('\\'), &chars2('\\', '\\'));
    let b = replace_chars(&a, &chars1('['), &chars2('\\', '['));
    replace_chars(&b, &chars1(']'), &chars2('\\', ']'))
}

/// The width in characters of the last (in-progress) line of `s`.
pub open spec fn line_width(s: Seq<char>) -> nat
    decreases s.len(),
{
    if s.len() == 0 || s.last() == '\n' {
        0
    } else {
        line_width(s.drop_last()) + 1
    }
}

/// How far indented the next text appended to `s` will start.
fn current_line_width(s: &Vec<char>) -> (r: usize)
    ensures
        r == line_width(s@),
{
    let mut i: usize = s.len();
    assert(s@.take(s@.len() as int) =~= s@);
    while i > 0 && s[i - 1] != '\n'
        invariant
            i <= s@.len(),
            line_width(s@) == line_width(s@.take(i as int)) + (s@.len() - i),
        decreases i,
    {
        assert(s@.take(i as int).drop_last() =~= s@.take(i - 1));
        i -= 1;
    }
    proof {
        if i > 0 {
            assert(s@.take(i as int).last() == '\n');
        }
    }
    s.len() - i
}

/// `n` spaces.
pub open spec fn spaces(n: nat) -> Seq<char> {
    Seq::new(n, |k: int| ' ')
}

/// Lines joined by `\n`, each line after the first prefixed by `pad` unless it is empty.
pub open spec fn indent_parts(ps: Seq<Seq<char>>, pad: Seq<char>) -> Seq<char>
    decreases ps.len(),
{
    if ps.len() == 0 {
        seq![]
    } else if ps.len() == 1 {
        ps[0]
    } else {
        indent_parts(ps.drop_last(), pad) + seq!['\n'] + (if ps.last().len() == 0 {
            seq![]
        } else {
            pad
        }) + ps.last()
    }
}

/// `text` with every line after the first indented by `col` spaces (blank lines left empty).
pub open spec fn reindent(text: Seq<char>, col: nat) -> Seq<char> {
    if col == 0 {
        text
    } else {
        indent_parts(split_on(text, '\n'), spaces(col))
    }
}

/// Prefix every line after the first with `col` spaces; the first line is already positioned by
/// the text before the directive. Blank lines stay empty, and `col == 0` changes nothing.
fn reindent_continuation(text: &Vec<char>, col: usize) -> (r: Vec<char>)
    ensures
        r@ == reindent(text@, col as nat),
{
    let mut out: Vec<char> = Vec::new();
    if col == 0 {
        push_all(&mut out, text);
        return out;
    }
    let mut pad: Vec<char> = Vec::new();
    let mut p: usize = 0;
    while p < col
        invariant
            p <= col,
            pad@ == spaces(p as nat),
        decreases col - p,
    {
        pad.push(' ');
        assert(pad@ =~= spaces((p + 1) as nat));
        p += 1;
    }
    let parts = split_exec(text, '\n');
    let ghost ps = split_on(text@, '\n');
    let mut k: usize = 0;
    while k < parts.len()
        invariant
            k <= parts@.len(),
            parts_view(parts@) == ps,
            pad@ == spaces(col as nat),
            out@ == indent_parts(ps.take(k as int), pad@),
        decreases parts.len() - k,
    {
        let ghost before = out@;
        if k > 0 {
            out.push('\n');
            if parts[k].len() > 0 {
                push_all(&mut out, &pad);
            }
        }
        push_all(&mut out, &parts[k]);
        proof {
            let t = ps.take(k + 1);
            assert(t.drop_last() =~= ps.take(k as int));
            assert(t.last() == parts@[k as int]@);
            if k == 0 {
                assert(out@ =~= indent_parts(t, pad@));
            } else {
                assert(out@ =~= indent_parts(t, pad@));
            }
        }
        k += 1;
    }
    assert(ps.take(parts@.len() as int) =~= ps);
    out
}

/// `s` without trailing `\n`s.
pub open spec fn trim_end_newlines(s: Seq<char>) -> Seq<char>
    decreases s.len(),
{
    if s.len() > 0 && s.last() == '\n' {
        trim_end_newlines(s.drop_last())
    } else {
        s
    }
}

/// `s.trim_matches('\n')`.
pub open spec fn trim_newlines(s: Seq<char>) -> Seq<char> {
    trim_end_newlines(trim_start_newlines(s))
}

fn trim_newlines_exec(s: &Vec<char>) -> (r: Vec<char>)
    ensures
        r@ == trim_newlines(s@),
{
    let mut a: usize = 0;
    assert(s@.subrange(0, s@.len() as int) =~= s@);
    while a < s.len() && s[a] == '\n'
        invariant
            a <= s@.len(),
            trim_start_newlines(s@) == trim_start_newlines(s@.subrange(a as int, s@.len() as int)),
        decreases s.len() - a,
    {
        assert(s@.subrange(a as int, s@.len() as int).drop_first() =~= s@.subrange(
            a + 1,
            s@.len() as int,
        ));
        a += 1;
    }
    assert(trim_start_newlines(s@.subrange(a as int, s@.len() as int)) == s@.subrange(
        a as int,
        s@.len() as int,
    ));
    let mut b: usize = s.len();
    while b > a && s[b - 1] == '\n'
        invariant
            a <= b <= s@.len(),
            trim_newlines(s@) == trim_end_newlines(s@.subrange(a as int, b as int)),
        decreases b,
    {
        assert(s@.subrange(a as int, b as int).drop_last() =~= s@.subrange(a as int, b - 1));
        b -= 1;
    }
    copy_range(s, a, b)
}

// ---------------------------------------------------------------------------------------------
// Rendering with embed cards.
// ---------------------------------------------------------------------------------------------

/// The display title of the block with id `id`, or `fallback` when there is none.
pub open spec fn title_or(bs: Seq<Block>, id: Seq<char>, fallback: Seq<char>) -> Seq<char> {
    match index_of_id(bs, id) {
        Some(i) => display_title_of(opt_str_view(bs[i].title), bs[i].body@, bs[i].id@),
        None => fallback,
    }
}

/// The text shown for a directive resolved to `id`: the block's title when the author wrote the
/// bare target (no alias), else the author's label.
pub open spec fn link_text(bs: Seq<Block>, id: Seq<char>, target: Seq<char>, label: Seq<char>) -> Seq<char> {
    if label == target {
        title_or(bs, id, label)
    } else {
        label
    }
}

/// A `[[target]]` reference rendered as a link in the `mdkb:` scheme.
pub open spec fn reference_link(bs: Seq<Block>, target: Seq<char>, label: Seq<char>) -> Seq<char> {
    match resolve_in(bs, target) {
        Some(id) => seq!['['] + escape_link(link_text(bs, id, target, label)) + "](mdkb:"@ + id
            + seq![')'],
        None => seq!['['] + escape_link(label) + "](mdkb:?unresolved)"@,
    }
}

/// The note for an embed whose target cannot be resolved (`lab` already escaped).
pub open spec fn unresolved_card(lab: Seq<char>) -> Seq<char> {
    "[⚠ "@ + lab + "](mdkb:?unresolved) *(unresolved embed)*"@
}

/// The note for an embed that would re-enter a block being rendered.
pub open spec fn cycle_card(lab: Seq<char>, id: Seq<char>) -> Seq<char> {
    "[↻ "@ + lab + "](mdkb:"@ + id + ") *(transclusion cycle)*"@
}

/// A line inside an embed card: block-quoted, an empty line as a bare `>`.
pub open spec fn quote_line(l: Seq<char>) -> Seq<char> {
    if l.len() == 0 {
        seq!['>', '\n']
    } else {
        seq!['>', ' '] + l + seq!['\n']
    }
}

/// The quoted lines of `s` for the given line spans.
pub open spec fn quote_spans(s: Seq<char>, sp: Seq<(int, int)>) -> Seq<char>
    decreases sp.len(),
{
    if sp.len() == 0 {
        seq![]
    } else {
        quote_line(s.subrange(sp[0].0, sp[0].1)) + quote_spans(s, sp.drop_first())
    }
}

/// Every line of `s` block-quoted.
pub open spec fn quoted(s: Seq<char>) -> Seq<char> {
    quote_spans(s, line_spans(s, 0))
}

/// An embed card: a header linking to the embedded block, then its rendering, quoted.
pub open spec fn embed_card(bs: Seq<Block>, id: Seq<char>, inner: Seq<char>) -> Seq<char> {
    "> ⧉ ["@ + escape_link(title_or(bs, id, id)) + "](mdkb:"@ + id + ")\n>\n"@ + quoted(inner)
}

/// The rendering of `s[cursor..]` given its remaining directives `refs`, while the blocks `vis`
/// are being rendered (an embed of one of them is a cycle).
pub open spec fn render_refs(
    bs: Seq<Block>,
    vis: Seq<Seq<char>>,
    s: Seq<char>,
    refs: Seq<RefSpec>,
    cursor: int,
) -> Seq<char>
    decreases bs.len() - vis.len(), refs.len() + 1,
{
    if refs.len() == 0 {
        s.subrange(cursor, s.len() as int)
    } else {
        s.subrange(cursor, refs[0].start) + (if refs[0].embed {
            embed_piece(bs, vis, refs[0].target, label_of(refs[0]))
        } else {
            reference_link(bs, refs[0].target, label_of(refs[0]))
        }) + render_refs(bs, vis, s, refs.drop_first(), refs[0].end)
    }
}

/// What a `![[target]]` renders to while the blocks `vis` are being rendered.
pub open spec fn embed_piece(bs: Seq<Block>, vis: Seq<Seq<char>>, target: Seq<char>, label: Seq<char>) -> Seq<char>
    decreases bs.len() - vis.len(), 0nat,
{
    let lab = escape_link(label);
    match resolve_in(bs, target) {
        None => unresolved_card(lab),
        Some(id) => if vis.contains(id) {
            cycle_card(lab, id)
        } else {
            match index_of_id(bs, id) {
                None => unresolved_card(lab),
                Some(k) => if vis.len() < bs.len() {
                    embed_card(
                        bs,
                        id,
                        render_refs(bs, vis.push(id), bs[k].body@, references_of(bs[k].body@), 0),
                    )
                } else {
                    unresolved_card(lab)
                },
            }
        },
    }
}

/// The rendering of the body `s` while the blocks `vis` are being rendered.
pub open spec fn render_text(bs: Seq<Block>, vis: Seq<Seq<char>>, s: Seq<char>) -> Seq<char> {
    render_refs(bs, vis, s, references_of(s), 0)
}

/// The blocks being rendered: distinct ids of blocks of `bs`.
pub open spec fn vis_ok(bs: Seq<Block>, vis: Seq<Seq<char>>) -> bool {
    &&& vis.no_duplicates()
    &&& forall|x: Seq<char>| #[trigger] vis.contains(x) ==> index_of_id(bs, x) is Some
}

/// At most as many blocks are being rendered as there are blocks.
proof fn lemma_vis_bound(bs: Seq<Block>, vis: Seq<Seq<char>>)
    requires
        vis_ok(bs, vis),
    ensures
        vis.len() <= bs.len(),
{
    let ids = bs.map_values(|b: Block| b.id@);
    assert(vis.to_set().subset_of(ids.to_set())) by {
        assert forall|x: Seq<char>| vis.to_set().contains(x) implies ids.to_set().contains(x) by {
            assert(vis.contains(x));
            lemma_index_from(bs, x, 0);
            let k = index_of_id(bs, x)->0;
            assert(ids[k] == x);
        }
    }
    vis.unique_seq_to_set();
    ids.lemma_cardinality_of_set();
    vstd::set_lib::lemma_len_subset(vis.to_set(), ids.to_set());
}

/// The characters of a block id.
fn id_chars(id: &BlockId) -> (r: Vec<char>)
    ensures
        r@ == id@,
{
    chars_of(id.as_str())
}

/// The display title of a block of the vault, as characters.
fn title_chars(b: &Block) -> (r: Vec<char>)
    ensures
        r@ == display_title_of(opt_str_view(b.title), b.body@, b.id@),
{
    let t = display_title_for(&b.title, &b.body, &b.id);
    chars_of(t.as_str())
}

/// The text for a directive resolved to `id` (see [`link_text`]).
fn link_text_exec(vault: &Vault, id: &BlockId, target: &str, label: &str) -> (r: Vec<char>)
    ensures
        r@ == link_text(vault.entries(), id@, target@, label@),
{
    if crate::text::str_eq(label, target) {
        match vault.block(id) {
            Some(b) => title_chars(b),
            None => chars_of(label),
        }
    } else {
        chars_of(label)
    }
}

/// A `[[target]]` reference as a Markdown link in the `mdkb:` scheme. A bare target shows the
/// resolved block's title; an explicit alias keeps the author's text.
fn render_reference(vault: &Vault, target: &str, label: &str) -> (r: Vec<char>)
    ensures
        r@ == reference_link(vault.entries(), target@, label@),
{
    let mut out: Vec<char> = Vec::new();
    out.push('[');
    match vault.resolve(target) {
        Some(id) => {
            let text = link_text_exec(vault, &id, target, label);
            push_all(&mut out, &escape_link_text(&text));
            push_str(&mut out, "](mdkb:");
            push_all(&mut out, &id_chars(&id));
            out.push(')');
        },
        None => {
            push_all(&mut out, &escape_link_text(&chars_of(label)));
            push_str(&mut out, "](mdkb:?unresolved)");
        },
    }
    out
}

/// Append the quoted lines of `s` to `out`.
fn push_quoted(out: &mut Vec<char>, s: &Vec<char>)
    ensures
        final(out)@ == old(out)@ + quoted(s@),
{
    let ghost start = out@;
    let mut p: usize = 0;
    while p < s.len()
        invariant
            p <= s@.len(),
            out@ + quote_spans(s@, line_spans(s@, p as int)) == start + quoted(s@),
        decreases s.len() - p,
    {
        let (ce, nx) = next_line(s, p);
        let ghost before = out@;
        let ghost rest = line_spans(s@, nx as int);
        if ce == p {
            out.push('>');
        } else {
            out.push('>');
            out.push(' ');
            push_range(out, s, p, ce);
        }
        out.push('\n');
        proof {
            let sp = seq![(p as int, ce as int)] + rest;
            assert(sp.drop_first() =~= rest);
            assert(sp[0] == (p as int, ce as int));
            assert(out@ =~= before + quote_line(s@.subrange(p as int, ce as int)));
        }
        p = nx;
    }
    assert(line_spans(s@, p as int) =~= Seq::<(int, int)>::empty());
}

/// A `![[target]]` transclusion as an embed card with a source-link header and the live
/// rendering of the target; a cycle or a dangling target becomes a note.
fn resolve_embed(vault: &Vault, target: &str, label: &str, visited: &mut Vec<BlockId>) -> (r: Vec<char>)
    requires
        vis_ok(vault.entries(), ids_view(old(visited)@)),
    ensures
        r@ == embed_piece(vault.entries(), ids_view(old(visited)@), target@, label@),
        final(visited)@ == old(visited)@,
    decreases vault.entries().len() - old(visited)@.len(), 0nat,
{
    let ghost bs = vault.entries();
    let ghost vis = ids_view(visited@);
    let lab = escape_link_text(&chars_of(label));
    let mut out: Vec<char> = Vec::new();
    let id = match vault.resolve(target) {
        Some(id) => id,
        None => {
            push_str(&mut out, "[⚠ ");
            push_all(&mut out, &lab);
            push_str(&mut out, "](mdkb:?unresolved) *(unresolved embed)*");
            return out;
        },
    };
    if contains_id(visited, &id) {
        push_str(&mut out, "[↻ ");
        push_all(&mut out, &lab);
        push_str(&mut out, "](mdkb:");
        push_all(&mut out, &id_chars(&id));
        push_str(&mut out, ") *(transclusion cycle)*");
        return out;
    }
    let b = match vault.block(&id) {
        Some(b) => b,
        None => {
            push_str(&mut out, "[⚠ ");
            push_all(&mut out, &lab);
            push_str(&mut out, "](mdkb:?unresolved) *(unresolved embed)*");
            return out;
        },
    };
    let ghost k = index_of_id(bs, id@)->0;
    let ghost v0 = visited@;
    visited.push(id.clone());
    proof {
        assert(ids_view(visited@) =~= vis.push(id@));
        assert forall|x: Seq<char>| #[trigger] vis.push(id@).contains(x) implies index_of_id(bs, x) is Some by {
            if x != id@ {
                assert(vis.contains(x));
            }
        }
        lemma_vis_bound(bs, vis.push(id@));
    }
    let body_chars = chars_of(b.body.as_str());
    let inner = render_body(vault, &body_chars, visited);
    visited.pop();
    assert(visited@ =~= v0);
    push_str(&mut out, "> ⧉ [");
    push_all(&mut out, &escape_link_text(&title_chars(b)));
    push_str(&mut out, "](mdkb:");
    push_all(&mut out, &id_chars(&id));
    push_str(&mut out, ")\n>\n");
    push_quoted(&mut out, &inner);
    out
}

/// A block body with each directive substituted, recursing into embedded blocks.
fn render_body(vault: &Vault, s: &Vec<char>, visited: &mut Vec<BlockId>) -> (r: Vec<char>)
    requires
        vis_ok(vault.entries(), ids_view(old(visited)@)),
    ensures
        r@ == render_text(vault.entries(), ids_view(old(visited)@), s@),
        final(visited)@ == old(visited)@,
    decreases vault.entries().len() - old(visited)@.len(), 1nat,
{
    let ghost bs = vault.entries();
    let ghost v0 = visited@;
    let ghost vis = ids_view(visited@);
    let refs = extract_references_in(s);
    proof {
        lemma_references_placed(s@);
    }
    let ghost rs = refs_view(refs@);
    let mut out: Vec<char> = Vec::new();
    let mut cursor: usize = 0;
    let mut i: usize = 0;
    assert(rs.skip(0) =~= rs);
    while i < refs.len()
        invariant
            rs == refs_view(refs@),
            rs == references_of(s@),
            refs_well_placed(s@, rs, 0),
            bs == vault.entries(),
            i <= rs.len(),
            cursor <= s@.len(),
            i < rs.len() ==> cursor <= rs[i as int].start,
            i > 0 ==> cursor == rs[i - 1].end,
            i == 0 ==> cursor == 0,
            visited@ == v0,
            old(visited)@ == v0,
            vis == ids_view(v0),
            vis_ok(bs, vis),
            out@ + render_refs(bs, vis, s@, rs.skip(i as int), cursor as int) == render_text(bs, vis, s@),
        decreases refs.len() - i,
    {
        let r = &refs[i];
        let ghost before = out@;
        let ghost rest = rs.skip(i as int);
        assert(rest[0] == rs[i as int]);
        assert(rs[i as int] == r@);
        assert(rest.drop_first() =~= rs.skip(i + 1));
        push_range(&mut out, s, cursor, r.span.start);
        let piece = if r.embed {
            resolve_embed(vault, r.target.as_str(), r.label(), visited)
        } else {
            render_reference(vault, r.target.as_str(), r.label())
        };
        push_all(&mut out, &piece);
        proof {
            let tail = render_refs(bs, vis, s@, rs.skip(i + 1), r@.end);
            assert(out@ + tail =~= before + render_refs(bs, vis, s@, rest, cursor as int));
        }
        cursor = r.span.end;
        i += 1;
    }
    push_range(&mut out, s, cursor, s.len());
    proof {
        assert(rs.skip(i as int) =~= Seq::<RefSpec>::empty());
    }
    out
}

/// The directives of `s` (see [`extract_references`]).
fn extract_references_in(s: &Vec<char>) -> (r: Vec<Reference>)
    ensures
        refs_view(r@) == references_of(s@),
{
    crate::link::references_in(s)
}

/// The rendering of the block with id `id`, rendered on its own.
pub open spec fn render_block_of(bs: Seq<Block>, id: Seq<char>) -> Option<Seq<char>> {
    match index_of_id(bs, id) {
        Some(k) => Some(render_text(bs, seq![id], bs[k].body@)),
        None => None,
    }
}

/// Render a block (by id) to Markdown with its children expanded: references become links and
/// embeds become cards holding the embedded block's current rendering. `None` if the id is
/// unknown.
pub fn render_block(vault: &Vault, id: &BlockId) -> (r: Option<String>)
    ensures
        match r {
            Some(t) => render_block_of(vault.entries(), id@) == Some(t@),
            None => render_block_of(vault.entries(), id@) is None,
        },
{
    let b = match vault.block(id) {
        Some(b) => b,
        None => return None,
    };
    let mut visited: Vec<BlockId> = Vec::new();
    visited.push(id.clone());
    proof {
        assert(ids_view(visited@) =~= seq![id@]);
        assert forall|x: Seq<char>| #[trigger] seq![id@].contains(x) implies index_of_id(
            vault.entries(),
            x,
        ) is Some by {
            assert(seq![id@][0] == id@);
        }
    }
    let s = chars_of(b.body.as_str());
    let out = render_body(vault, &s, &mut visited);
    Some(string_from(&out))
}

/// A block rendered for display: id, raw body (for editing) and resolved Markdown (for view).
#[derive(Debug, PartialEq, Eq)]
pub struct RenderedBlock {
    /// Stable block id.
    pub id: BlockId,
    /// Display title.
    pub title: String,
    /// All tags on this block (frontmatter and inline `#tags`).
    pub tags: Vec<String>,
    /// The managed (frontmatter) tags, the subset a tag editor can add or remove.
    pub fm_tags: Vec<String>,
    /// Original block body, for round-trip editing.
    pub raw: String,
    /// Resolved Markdown for display.
    pub rendered: String,
}

/// Render a block as a [`RenderedBlock`] (raw and resolved). `None` if the id is unknown.
pub fn rendered_block(vault: &Vault, id: &BlockId) -> (r: Option<RenderedBlock>)
    ensures
        match r {
            Some(rb) => index_of_id(vault.entries(), id@) matches Some(k) && {
                let b = vault.entries()[k];
                &&& rb.id@ == id@
                &&& rb.title@ == display_title_of(opt_str_view(b.title), b.body@, b.id@)
                &&& crate::block::strs_view(rb.tags@) == crate::block::strs_view(b.tags@)
                &&& crate::block::strs_view(rb.fm_tags@) == crate::block::strs_view(b.fm_tags@)
                &&& rb.raw@ == b.body@
                &&& rb.rendered@ == render_text(vault.entries(), seq![id@], b.body@)
            },
            None => index_of_id(vault.entries(), id@) is None,
        },
{
    let b = match vault.block(id) {
        Some(b) => b,
        None => return None,
    };
    let mut visited: Vec<BlockId> = Vec::new();
    visited.push(id.clone());
    proof {
        assert(ids_view(visited@) =~= seq![id@]);
        assert forall|x: Seq<char>| #[trigger] seq![id@].contains(x) implies index_of_id(
            vault.entries(),
            x,
        ) is Some by {
            assert(seq![id@][0] == id@);
        }
    }
    let s = chars_of(b.body.as_str());
    let out = render_body(vault, &s, &mut visited);
    Some(RenderedBlock {
        id: id.clone(),
        title: b.display_title(),
        tags: crate::block::clone_strings(&b.tags),
        fm_tags: crate::block::clone_strings(&b.fm_tags),
        raw: b.body.clone(),
        rendered: string_from(&out),
    })
}

// ---------------------------------------------------------------------------------------------
// Flat rendering for export.
// ---------------------------------------------------------------------------------------------

/// The set of blocks being exported together. A `[[reference]]` to a block in the set renders
/// as a relative Markdown link to that block's output file; references leaving the set stay
/// plain text.
pub struct FlatSet<'a> {
    /// Resolved block id and its output path (relative to the export root), one entry per id.
    pub paths: &'a Vec<(BlockId, String)>,
    /// Output path of the doc being rendered, so links are made relative to it.
    pub self_path: &'a str,
}

pub open spec fn paths_view(v: Seq<(BlockId, String)>) -> Seq<(Seq<char>, Seq<char>)> {
    v.map_values(|p: (BlockId, String)| (p.0@, p.1@))
}

/// The mathematical content of an optional export set: its paths and the current doc's path.
pub open spec fn set_view(set: Option<&FlatSet>) -> Option<(Seq<(Seq<char>, Seq<char>)>, Seq<char>)> {
    match set {
        Some(fs) => Some((paths_view(fs.paths@), fs.self_path@)),
        None => None,
    }
}

/// The output path recorded for `id` (the first entry for it).
pub open spec fn path_in(ps: Seq<(Seq<char>, Seq<char>)>, id: Seq<char>) -> Option<Seq<char>>
    decreases ps.len(),
{
    if ps.len() == 0 {
        None
    } else if ps[0].0 == id {
        Some(ps[0].1)
    } else {
        path_in(ps.drop_first(), id)
    }
}

/// A `[[reference]]` in flat output: the title (or the author's alias) as plain text, or a
/// relative link when the target is in the export set. A dangling target shows its label.
pub open spec fn flat_link(
    bs: Seq<Block>,
    target: Seq<char>,
    label: Seq<char>,
    set: Option<(Seq<(Seq<char>, Seq<char>)>, Seq<char>)>,
) -> Seq<char> {
    match resolve_in(bs, target) {
        None => label,
        Some(id) => match set {
            Some(fs) => match path_in(fs.0, id) {
                Some(p) => seq!['['] + link_text(bs, id, target, label) + seq![']', '(']
                    + relative_link_of(fs.1, p) + seq![')'],
                None => link_text(bs, id, target, label),
            },
            None => link_text(bs, id, target, label),
        },
    }
}

/// The flat rendering of `s[cursor..]` with remaining directives `refs`, appended to `acc` (the
/// output so far, whose last line sets the indentation of a dissolved embed).
pub open spec fn flat_refs(
    bs: Seq<Block>,
    vis: Seq<Seq<char>>,
    set: Option<(Seq<(Seq<char>, Seq<char>)>, Seq<char>)>,
    s: Seq<char>,
    refs: Seq<RefSpec>,
    cursor: int,
    acc: Seq<char>,
) -> Seq<char>
    decreases bs.len() - vis.len(), refs.len() + 1,
{
    if refs.len() == 0 {
        acc + s.subrange(cursor, s.len() as int)
    } else {
        let pre = acc + s.subrange(cursor, refs[0].start);
        flat_refs(
            bs,
            vis,
            set,
            s,
            refs.drop_first(),
            refs[0].end,
            pre + if refs[0].embed {
                reindent(dissolve(bs, vis, set, refs[0].target, label_of(refs[0])), line_width(pre))
            } else {
                flat_link(bs, refs[0].target, label_of(refs[0]), set)
            },
        )
    }
}

/// A `![[target]]` in flat output: the target's flat rendering with surrounding blank lines
/// trimmed; a cycle or a dangling target becomes an HTML comment.
pub open spec fn dissolve(
    bs: Seq<Block>,
    vis: Seq<Seq<char>>,
    set: Option<(Seq<(Seq<char>, Seq<char>)>, Seq<char>)>,
    target: Seq<char>,
    label: Seq<char>,
) -> Seq<char>
    decreases bs.len() - vis.len(), 0nat,
{
    match resolve_in(bs, target) {
        None => "<!-- mdkb: unresolved embed: "@ + target + " -->"@,
        Some(id) => if vis.contains(id) {
            "<!-- mdkb: transclusion cycle at "@ + label + " -->"@
        } else {
            match index_of_id(bs, id) {
                None => "<!-- mdkb: unresolved embed: "@ + target + " -->"@,
                Some(k) => if vis.len() < bs.len() {
                    trim_newlines(
                        flat_refs(
                            bs,
                            vis.push(id),
                            set,
                            bs[k].body@,
                            references_of(bs[k].body@),
                            0,
                            seq![],
                        ),
                    )
                } else {
                    "<!-- mdkb: unresolved embed: "@ + target + " -->"@
                },
            }
        },
    }
}

/// The flat rendering of the body `s` while the blocks `vis` are being rendered.
pub open spec fn flat_text(
    bs: Seq<Block>,
    vis: Seq<Seq<char>>,
    set: Option<(Seq<(Seq<char>, Seq<char>)>, Seq<char>)>,
    s: Seq<char>,
) -> Seq<char> {
    flat_refs(bs, vis, set, s, references_of(s), 0, seq![])
}

/// The output path recorded for `id` in `paths`.
fn path_for<'a>(paths: &'a Vec<(BlockId, String)>, id: &BlockId) -> (r: Option<&'a String>)
    ensures
        match r {
            Some(p) => path_in(paths_view(paths@), id@) == Some(p@),
            None => path_in(paths_view(paths@), id@) is None,
        },
{
    let mut i: usize = 0;
    assert(paths_view(paths@).skip(0) =~= paths_view(paths@));
    while i < paths.len()
        invariant
            i <= paths@.len(),
            path_in(paths_view(paths@), id@) == path_in(paths_view(paths@).skip(i as int), id@),
        decreases paths.len() - i,
    {
        let ghost rest = paths_view(paths@).skip(i as int);
        assert(rest[0] == (paths@[i as int].0@, paths@[i as int].1@));
        if paths[i].0.same(id) {
            return Some(&paths[i].1);
        }
        assert(rest.drop_first() =~= paths_view(paths@).skip(i + 1));
        i += 1;
    }
    assert(paths_view(paths@).skip(i as int) =~= Seq::<(Seq<char>, Seq<char>)>::empty());
    None
}

/// A `[[reference]]` in flat output (see [`flat_link`]).
fn flat_reference(vault: &Vault, target: &str, label: &str, set: Option<&FlatSet>) -> (r: Vec<char>)
    ensures
        r@ == flat_link(vault.entries(), target@, label@, set_view(set)),
{
    let id = match vault.resolve(target) {
        Some(id) => id,
        None => return chars_of(label),
    };
    let text = link_text_exec(vault, &id, target, label);
    if let Some(fs) = set {
        if let Some(p) = path_for(fs.paths, &id) {
            let mut out: Vec<char> = Vec::new();
            out.push('[');
            push_all(&mut out, &text);
            out.push(']');
            out.push('(');
            let link = relative_link(fs.self_path, p.as_str());
            push_str(&mut out, link.as_str());
            out.push(')');
            assert(out@ =~= seq!['['] + text@ + seq![']', '('] + link@ + seq![')']);
            return out;
        }
    }
    text
}

/// A `![[embed]]` in flat output (see [`dissolve`]).
fn dissolve_embed(
    vault: &Vault,
    target: &str,
    label: &str,
    visited: &mut Vec<BlockId>,
    set: Option<&FlatSet>,
) -> (r: Vec<char>)
    requires
        vis_ok(vault.entries(), ids_view(old(visited)@)),
    ensures
        r@ == dissolve(vault.entries(), ids_view(old(visited)@), set_view(set), target@, label@),
        final(visited)@ == old(visited)@,
    decreases vault.entries().len() - old(visited)@.len(), 0nat,
{
    let ghost bs = vault.entries();
    let ghost vis = ids_view(visited@);
    let mut out: Vec<char> = Vec::new();
    let id = match vault.resolve(target) {
        Some(id) => id,
        None => {
            push_str(&mut out, "<!-- mdkb: unresolved embed: ");
            push_str(&mut out, target);
            push_str(&mut out, " -->");
            return out;
        },
    };
    if contains_id(visited, &id) {
        push_str(&mut out, "<!-- mdkb: transclusion cycle at ");
        push_str(&mut out, label);
        push_str(&mut out, " -->");
        return out;
    }
    let b = match vault.block(&id) {
        Some(b) => b,
        None => {
            push_str(&mut out, "<!-- mdkb: unresolved embed: ");
            push_str(&mut out, target);
            push_str(&mut out, " -->");
            return out;
        },
    };
    let ghost v0 = visited@;
    visited.push(id.clone());
    proof {
        assert(ids_view(visited@) =~= vis.push(id@));
        assert forall|x: Seq<char>| #[trigger] vis.push(id@).contains(x) implies index_of_id(bs, x) is Some by {
            if x != id@ {
                assert(vis.contains(x));
            }
        }
        lemma_vis_bound(bs, vis.push(id@));
    }
    let body_chars = chars_of(b.body.as_str());
    let inner = render_flat_body(vault, &body_chars, visited, set);
    visited.pop();
    assert(visited@ =~= v0);
    trim_newlines_exec(&inner)
}

/// A block body in flat form: embeds dissolved inline (their continuation lines re-indented to
/// the directive's column) and references as plain text or in-set links.
fn render_flat_body(vault: &Vault, s: &Vec<char>, visited: &mut Vec<BlockId>, set: Option<&FlatSet>) -> (r: Vec<char>)
    requires
        vis_ok(vault.entries(), ids_view(old(visited)@)),
    ensures
        r@ == flat_text(vault.entries(), ids_view(old(visited)@), set_view(set), s@),
        final(visited)@ == old(visited)@,
    decreases vault.entries().len() - old(visited)@.len(), 1nat,
{
    let ghost bs = vault.entries();
    let ghost v0 = visited@;
    let ghost vis = ids_view(visited@);
    let ghost sv = set_view(set);
    let refs = extract_references_in(s);
    proof {
        lemma_references_placed(s@);
    }
    let ghost rs = refs_view(refs@);
    let mut out: Vec<char> = Vec::new();
    let mut cursor: usize = 0;
    let mut i: usize = 0;
    assert(rs.skip(0) =~= rs);
    while i < refs.len()
        invariant
            rs == refs_view(refs@),
            rs == references_of(s@),
            refs_well_placed(s@, rs, 0),
            bs == vault.entries(),
            sv == set_view(set),
            i <= rs.len(),
            cursor <= s@.len(),
            i < rs.len() ==> cursor <= rs[i as int].start,
            i > 0 ==> cursor == rs[i - 1].end,
            i == 0 ==> cursor == 0,
            visited@ == v0,
            old(visited)@ == v0,
            vis == ids_view(v0),
            vis_ok(bs, vis),
            flat_refs(bs, vis, sv, s@, rs.skip(i as int), cursor as int, out@) == flat_text(bs, vis, sv, s@),
        decreases refs.len() - i,
    {
        let r = &refs[i];
        let ghost rest = rs.skip(i as int);
        assert(rest[0] == rs[i as int]);
        assert(rs[i as int] == r@);
        assert(rest.drop_first() =~= rs.skip(i + 1));
        push_range(&mut out, s, cursor, r.span.start);
        if r.embed {
            let col = current_line_width(&out);
            let dissolved = dissolve_embed(vault, r.target.as_str(), r.label(), visited, set);
            push_all(&mut out, &reindent_continuation(&dissolved, col));
        } else {
            push_all(&mut out, &flat_reference(vault, r.target.as_str(), r.label(), set));
        }
        cursor = r.span.end;
        i += 1;
    }
    push_range(&mut out, s, cursor, s.len());
    proof {
        assert(rs.skip(i as int) =~= Seq::<RefSpec>::empty());
    }
    out
}

/// The flat rendering of the block with id `id` for the export set `set`.
pub open spec fn render_flat_of(
    bs: Seq<Block>,
    id: Seq<char>,
    set: Option<(Seq<(Seq<char>, Seq<char>)>, Seq<char>)>,
) -> Option<Seq<char>> {
    match index_of_id(bs, id) {
        Some(k) => Some(flat_text(bs, seq![id], set, bs[k].body@)),
        None => None,
    }
}

fn render_flat_opt(vault: &Vault, id: &BlockId, set: Option<&FlatSet>) -> (r: Option<String>)
    ensures
        match r {
            Some(t) => render_flat_of(vault.entries(), id@, set_view(set)) == Some(t@),
            None => render_flat_of(vault.entries(), id@, set_view(set)) is None,
        },
{
    let b = match vault.block(id) {
        Some(b) => b,
        None => return None,
    };
    let mut visited: Vec<BlockId> = Vec::new();
    visited.push(id.clone());
    proof {
        assert(ids_view(visited@) =~= seq![id@]);
        assert forall|x: Seq<char>| #[trigger] seq![id@].contains(x) implies index_of_id(
            vault.entries(),
            x,
        ) is Some by {
            assert(seq![id@][0] == id@);
        }
    }
    let s = chars_of(b.body.as_str());
    let out = render_flat_body(vault, &s, &mut visited, set);
    Some(string_from(&out))
}

/// Render a block to flat, self-contained Markdown for export: every `![[embed]]` is dissolved
/// inline (recursively) and every `[[reference]]` becomes its plain display title. Cycles and
/// dangling targets become HTML-comment markers. `None` if the id is unknown.
pub fn render_flat(vault: &Vault, id: &BlockId) -> (r: Option<String>)
    ensures
        match r {
            Some(t) => render_flat_of(vault.entries(), id@, None) == Some(t@),
            None => render_flat_of(vault.entries(), id@, None) is None,
        },
{
    render_flat_opt(vault, id, None)
}

/// Like [`render_flat`], but references whose target is in `set` render as relative Markdown
/// links to the target's output file, so co-exported docs cross-link.
pub fn render_flat_in_set(vault: &Vault, id: &BlockId, set: &FlatSet) -> (r: Option<String>)
    ensures
        match r {
            Some(t) => render_flat_of(vault.entries(), id@, set_view(Some(set))) == Some(t@),
            None => render_flat_of(vault.entries(), id@, set_view(Some(set))) is None,
        },
{
    render_flat_opt(vault, id, Some(set))
}

// ---------------------------------------------------------------------------------------------
// References surfacing in flat output.
// ---------------------------------------------------------------------------------------------

/// The walk state: the blocks already walked, and the reference targets found (in order).
pub type WalkState = (Seq<Seq<char>>, Seq<Seq<char>>);

/// Walk the block `id` (unless already walked): collect the resolved targets of its references
/// and walk the blocks it embeds. `fuel` bounds the nesting; each level walks a new block, so
/// the number of blocks is enough.
pub open spec fn collect_id(bs: Seq<Block>, fuel: nat, id: Seq<char>, st: WalkState) -> WalkState
    decreases fuel, 0int, 0int,
{
    if st.0.contains(id) {
        st
    } else {
        match index_of_id(bs, id) {
            None => (st.0.push(id), st.1),
            Some(k) => if fuel == 0 {
                (st.0.push(id), st.1)
            } else {
                collect_refs(
                    bs,
                    (fuel - 1) as nat,
                    references_of(bs[k].body@),
                    (st.0.push(id), st.1),
                )
            },
        }
    }
}

/// One directive of the walk: a reference adds its resolved target (once); an embed walks the
/// embedded block; an unresolvable directive is skipped.
pub open spec fn collect_refs(bs: Seq<Block>, fuel: nat, refs: Seq<RefSpec>, st: WalkState) -> WalkState
    decreases fuel, 1int, refs.len(),
{
    if refs.len() == 0 {
        st
    } else {
        collect_refs(
            bs,
            fuel,
            refs.drop_first(),
            match resolve_in(bs, refs[0].target) {
                None => st,
                Some(t) => if refs[0].embed {
                    collect_id(bs, fuel, t, st)
                } else if st.1.contains(t) {
                    st
                } else {
                    (st.0, st.1.push(t))
                },
            },
        )
    }
}

/// The resolved targets of every reference in the flat output of `id`: its own references and
/// those surfaced through the blocks it transitively embeds, first occurrence first.
pub open spec fn flat_targets(bs: Seq<Block>, id: Seq<char>) -> Seq<Seq<char>> {
    collect_id(bs, bs.len(), id, (seq![], seq![])).1
}

fn collect_flat_ref_targets(
    vault: &Vault,
    id: &BlockId,
    seen: &mut Vec<BlockId>,
    out: &mut Vec<BlockId>,
    fuel: Ghost<nat>,
)
    requires
        vis_ok(vault.entries(), ids_view(old(seen)@)),
        index_of_id(vault.entries(), id@) is Some,
        fuel@ + old(seen)@.len() >= vault.entries().len(),
    ensures
        (ids_view(final(seen)@), ids_view(final(out)@)) == collect_id(
            vault.entries(),
            fuel@,
            id@,
            (ids_view(old(seen)@), ids_view(old(out)@)),
        ),
        vis_ok(vault.entries(), ids_view(final(seen)@)),
        final(seen)@.len() >= old(seen)@.len(),
    decreases fuel@,
{
    let ghost bs = vault.entries();
    if contains_id(seen, id) {
        return;
    }
    let b = match vault.block(id) {
        Some(b) => b,
        None => return,
    };
    let ghost vis0 = ids_view(seen@);
    let ghost out0 = ids_view(out@);
    seen.push(id.clone());
    proof {
        assert(ids_view(seen@) =~= vis0.push(id@));
        assert forall|x: Seq<char>| #[trigger] vis0.push(id@).contains(x) implies index_of_id(bs, x) is Some by {
            if x != id@ {
                assert(vis0.contains(x));
            }
        }
        lemma_vis_bound(bs, vis0.push(id@));
    }
    let ghost f = (fuel@ - 1) as nat;
    let body_chars = chars_of(b.body.as_str());
    let refs = extract_references_in(&body_chars);
    let ghost rs = refs_view(refs@);
    let ghost target = collect_refs(bs, f, rs, (vis0.push(id@), out0));
    let ghost n0 = seen@.len();
    let mut i: usize = 0;
    assert(rs.skip(0) =~= rs);
    while i < refs.len()
        invariant
            rs == refs_view(refs@),
            bs == vault.entries(),
            i <= rs.len(),
            fuel@ >= 1,
            f == (fuel@ - 1) as nat,
            f + n0 >= bs.len(),
            seen@.len() >= n0,
            vis_ok(bs, ids_view(seen@)),
            collect_refs(bs, f, rs.skip(i as int), (ids_view(seen@), ids_view(out@))) == target,
        decreases refs.len() - i,
    {
        let r = &refs[i];
        let ghost rest = rs.skip(i as int);
        assert(rest[0] == rs[i as int]);
        assert(rs[i as int] == r@);
        assert(rest.drop_first() =~= rs.skip(i + 1));
        match vault.resolve(r.target.as_str()) {
            None => {},
            Some(t) => {
                proof {
                    crate::vault::lemma_resolve_in_exists(bs, r@.target);
                }
                if r.embed {
                    collect_flat_ref_targets(vault, &t, seen, out, Ghost(f));
                } else if !contains_id(out, &t) {
                    let ghost o = ids_view(out@);
                    out.push(t);
                    assert(ids_view(out@) =~= o.push(t@));
                }
            },
        }
        i += 1;
    }
    assert(rs.skip(i as int) =~= Seq::<RefSpec>::empty());
}

/// The resolved targets of every `[[reference]]` in the flat output of `id`: those in its own
/// body and those surfaced through the blocks it transitively embeds. Unresolvable references
/// are skipped, the walk is cycle-safe, and each target appears once, at its first occurrence.
pub fn flat_reference_targets(vault: &Vault, id: &BlockId) -> (r: Vec<BlockId>)
    ensures
        ids_view(r@) == flat_targets(vault.entries(), id@),
{
    let mut out: Vec<BlockId> = Vec::new();
    let mut seen: Vec<BlockId> = Vec::new();
    if vault.block(id).is_none() {
        assert(ids_view(out@) =~= Seq::<Seq<char>>::empty());
        return out;
    }
    proof {
        assert(ids_view(seen@) =~= Seq::<Seq<char>>::empty());
        assert(ids_view(out@) =~= Seq::<Seq<char>>::empty());
    }
    collect_flat_ref_targets(vault, id, &mut seen, &mut out, Ghost(vault.entries().len()));
    out
}

// ---------------------------------------------------------------------------------------------
// Laws.
// ---------------------------------------------------------------------------------------------

/// A body without directives renders to itself, both as cards and flat.
pub proof fn lemma_plain_body_renders_verbatim(
    bs: Seq<Block>,
    vis: Seq<Seq<char>>,
    set: Option<(Seq<(Seq<char>, Seq<char>)>, Seq<char>)>,
    s: Seq<char>,
)
    requires
        references_of(s).len() == 0,
    ensures
        render_text(bs, vis, s) == s,
        flat_text(bs, vis, set, s) == s,
{
    assert(s.subrange(0, s.len() as int) =~= s);
    assert(Seq::<char>::empty() + s =~= s);
}

proof fn lemma_split_nonempty(s: Seq<char>, c: char, i: int)
    requires
        0 <= i <= s.len(),
    ensures
        split_from(s, c, i).len() >= 1,
{
}

proof fn lemma_common_all(dirs: Seq<Seq<char>>, parts: Seq<Seq<char>>, c: int)
    requires
        parts.len() == dirs.len() + 1,
        forall|j: int| 0 <= j < dirs.len() ==> dirs[j] == parts[j],
        0 <= c <= dirs.len(),
    ensures
        common_len(dirs, parts, c) == dirs.len(),
    decreases dirs.len() - c,
{
    if c < dirs.len() {
        lemma_common_all(dirs, parts, c + 1);
    }
}

/// Between two files of the same directory the relative link is the bare file name.
pub proof fn lemma_relative_link_same_dir(from: Seq<char>, to: Seq<char>)
    requires
        split_on(from, '/').drop_last() == split_on(to, '/').drop_last(),
    ensures
        relative_link_of(from, to) == split_on(to, '/').last(),
{
    let parts = split_on(to, '/');
    let dirs = split_on(from, '/').drop_last();
    lemma_split_nonempty(to, '/', 0);
    lemma_common_all(dirs, parts, 0);
    assert(parts.skip(dirs.len() as int) =~= seq![parts.last()]);
    assert(ups(0) =~= Seq::<char>::empty());
    assert(Seq::<char>::empty() + parts.last() =~= parts.last());
}

/// Embedding shows the embedded block as it is now: an embed of a block that is not already
/// being rendered becomes a card holding that block's present body, itself rendered with the
/// block added to those being rendered. Only an embed of a block already being rendered is cut
/// (with a cycle note).
pub proof fn lemma_embed_shows_current_body(bs: Seq<Block>, vis: Seq<Seq<char>>, target: Seq<char>, label: Seq<char>)
    requires
        vis_ok(bs, vis),
        resolve_in(bs, target) is Some,
    ensures
        ({
            let id = resolve_in(bs, target)->0;
            &&& index_of_id(bs, id) is Some
            &&& !vis.contains(id) ==> embed_piece(bs, vis, target, label) == embed_card(
                bs,
                id,
                render_text(bs, vis.push(id), bs[index_of_id(bs, id)->0].body@),
            )
            &&& vis.contains(id) ==> embed_piece(bs, vis, target, label) == cycle_card(escape_link(label), id)
        }),
{
    let id = resolve_in(bs, target)->0;
    lemma_resolve_in_exists(bs, target);
    if !vis.contains(id) {
        let w = vis.push(id);
        assert(w.no_duplicates()) by {
            assert forall|i: int, j: int| 0 <= i < w.len() && 0 <= j < w.len() && i != j implies w[i] != w[j] by {
                if i < vis.len() && j < vis.len() {
                } else if i < vis.len() {
                    assert(w[j] == id);
                    assert(vis.contains(w[i]));
                } else {
                    assert(w[i] == id);
                    assert(vis.contains(w[j]));
                }
            }
        }
        assert forall|x: Seq<char>| #[trigger] w.contains(x) implies index_of_id(bs, x) is Some by {
            if x != id {
                let j = choose|j: int| 0 <= j < w.len() && w[j] == x;
                assert(vis[j] == x);
                assert(vis.contains(x));
            }
        }
        lemma_vis_bound(bs, w);
    }
}

/// A block renders exactly when the vault holds a block with its id.
pub proof fn lemma_renders_exactly_known_blocks(bs: Seq<Block>, id: Seq<char>)
    ensures
        render_block_of(bs, id) is Some <==> index_of_id(bs, id) is Some,
{
}

} // verus!
