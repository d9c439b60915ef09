//! What the block-file writer's text parses back to. The writer emits an optional frontmatter
//! of one line per field (`title:`, `tags:`, `locked:`, then the properties) between `---`
//! fences, and the body after a blank line; the laws here read that text back through the
//! parser's own specification.

use vstd::prelude::*;
use crate::blockfile::{
    body_of, clean_item, clean_props, clean_tags, closing_fence_from, dashes3, file_fm_tags,
    file_locked, file_props, file_title, flow_items, fm_line, fm_line_count, fm_props,
    frontmatter_of, frontmatter_split, has_key, is_quote, join_comma, kw_locked, kw_tags, kw_title,
    line_prop, locked_from, lower_all, opens_frontmatter, prop_lines, props_upto, strip_nl_end,
    block_items, is_item_line, tags_from, title_from, trim_end_char, trim_end_quotes, trim_start_char, trim_start_quotes,
    trim_start_newlines, truthy, written_file,
};
use crate::link::piece_end;
use crate::text::{eq_ci, find_char_from, lemma_find_char_from, is_ws, line_content_end, line_spans, lines, starts_with, starts_with_at, trim, trim_end, trim_start};
use crate::yaml::{escape, is_managed, lemma_yaml_round_trip, plain_safe, prop_key_ok, scalar_value, yaml_text};

verus! {

// ---------------------------------------------------------------------------------------------
// Scanning text that has a known prefix.
// ---------------------------------------------------------------------------------------------

proof fn lemma_find_shift(p: Seq<char>, y: Seq<char>, c: char, k: int)
    requires
        0 <= k,
    ensures
        find_char_from(p + y, c, p.len() + k) == p.len() + find_char_from(y, c, k),
    decreases y.len() - k,
{
    if k < y.len() {
        assert((p + y)[p.len() + k] == y[k]);
        if y[k] != c {
            lemma_find_shift(p, y, c, k + 1);
        }
    }
}

proof fn lemma_find_skip(x: Seq<char>, y: Seq<char>, c: char, i: int)
    requires
        0 <= i <= x.len(),
        forall|j: int| i <= j < x.len() ==> x[j] != c,
    ensures
        find_char_from(x + y, c, i) == find_char_from(x + y, c, x.len() as int),
    decreases x.len() - i,
{
    if i < x.len() {
        assert((x + y)[i] == x[i]);
        lemma_find_skip(x, y, c, i + 1);
    }
}

proof fn lemma_piece_end_shift(p: Seq<char>, y: Seq<char>, k: int)
    requires
        0 <= k,
    ensures
        piece_end(p + y, p.len() + k) == p.len() + piece_end(y, k),
{
    lemma_find_shift(p, y, '\n', k);
}

proof fn lemma_line_end_shift(p: Seq<char>, y: Seq<char>, k: int)
    requires
        0 <= k,
    ensures
        line_content_end(p + y, p.len() + k) == p.len() + line_content_end(y, k),
{
    lemma_find_shift(p, y, '\n', k);
    let e = find_char_from(y, '\n', k);
    if e < y.len() && e > k {
        assert((p + y)[p.len() + e - 1] == y[e - 1]);
    }
}

proof fn lemma_spans_bounds(y: Seq<char>, k: int)
    requires
        0 <= k,
    ensures
        forall|i: int| 0 <= i < line_spans(y, k).len() ==> 0 <= (#[trigger] line_spans(y, k)[i]).0 <= line_spans(y, k)[i].1 <= y.len(),
    decreases y.len() + 1 - k,
{
    if k < y.len() {
        crate::text::lemma_find_char_from(y, '\n', k);
        let n = find_char_from(y, '\n', k) + 1;
        lemma_spans_bounds(y, n);
        let sp = line_spans(y, k);
        assert forall|i: int| 0 <= i < sp.len() implies 0 <= (#[trigger] sp[i]).0 <= sp[i].1 <= y.len() by {
            if i > 0 {
                assert(sp[i] == line_spans(y, n)[i - 1]);
            }
        }
    }
}

/// `sp` with every span moved `d` to the right.
pub open spec fn shifted(sp: Seq<(int, int)>, d: int) -> Seq<(int, int)>
    decreases sp.len(),
{
    if sp.len() == 0 {
        seq![]
    } else {
        seq![(sp[0].0 + d, sp[0].1 + d)] + shifted(sp.drop_first(), d)
    }
}

proof fn lemma_shifted_index(sp: Seq<(int, int)>, d: int, i: int)
    requires
        0 <= i < sp.len(),
    ensures
        shifted(sp, d).len() == sp.len(),
        shifted(sp, d)[i] == (sp[i].0 + d, sp[i].1 + d),
    decreases sp.len(),
{
    if i > 0 {
        lemma_shifted_index(sp.drop_first(), d, i - 1);
    } else {
        lemma_shifted_len(sp.drop_first(), d);
    }
}

proof fn lemma_shifted_len(sp: Seq<(int, int)>, d: int)
    ensures
        shifted(sp, d).len() == sp.len(),
    decreases sp.len(),
{
    if sp.len() > 0 {
        lemma_shifted_len(sp.drop_first(), d);
    }
}

proof fn lemma_line_spans_shift(p: Seq<char>, y: Seq<char>, k: int)
    requires
        0 <= k,
    ensures
        line_spans(p + y, p.len() + k) == shifted(line_spans(y, k), p.len() as int),
    decreases y.len() + 1 - k,
{
    if k < y.len() {
        lemma_line_end_shift(p, y, k);
        lemma_find_shift(p, y, '\n', k);
        crate::text::lemma_find_char_from(y, '\n', k);
        lemma_line_spans_shift(p, y, find_char_from(y, '\n', k) + 1);
        let sy = line_spans(y, k);
        assert(sy.drop_first() == line_spans(y, find_char_from(y, '\n', k) + 1));
    }
}

proof fn lemma_closing_fence_shift(p: Seq<char>, y: Seq<char>, k: int)
    requires
        0 <= k,
    ensures
        closing_fence_from(p + y, p.len() + k) == match closing_fence_from(y, k) {
            Some(o) => Some(p.len() + o),
            None => None,
        },
    decreases y.len() - k,
{
    if k < y.len() {
        lemma_piece_end_shift(p, y, k);
        crate::text::lemma_find_char_from(y, '\n', k);
        let pe = piece_end(y, k);
        assert((p + y).subrange(p.len() + k, p.len() + pe) =~= y.subrange(k, pe));
        if strip_nl_end(y.subrange(k, pe)) != dashes3() {
            lemma_closing_fence_shift(p, y, pe);
        }
    }
}

// ---------------------------------------------------------------------------------------------
// Frontmatter made of whole lines.
// ---------------------------------------------------------------------------------------------

/// The lines `ls`, each followed by a line break.
pub open spec fn joined(ls: Seq<Seq<char>>) -> Seq<char>
    decreases ls.len(),
{
    if ls.len() == 0 {
        seq![]
    } else {
        ls[0] + seq!['\n'] + joined(ls.drop_first())
    }
}

/// A line the writer can emit: non-empty, without a line break, not ending in `\r`, and not a
/// `---` fence.
pub open spec fn plain_line(l: Seq<char>) -> bool {
    &&& l.len() > 0
    &&& forall|j: int| 0 <= j < l.len() ==> l[j] != '\n'
    &&& l.last() != '\r'
    &&& l != dashes3()
}

proof fn lemma_joined_append(a: Seq<Seq<char>>, b: Seq<Seq<char>>)
    ensures
        joined(a + b) == joined(a) + joined(b),
    decreases a.len(),
{
    if a.len() > 0 {
        lemma_joined_append(a.drop_first(), b);
        assert((a + b).drop_first() =~= a.drop_first() + b);
        assert((a + b)[0] == a[0]);
    } else {
        assert(a + b =~= b);
    }
}

proof fn lemma_first_line(l: Seq<char>, rest: Seq<char>)
    requires
        plain_line(l),
    ensures
        find_char_from(l + (seq!['\n'] + rest), '\n', 0) == l.len(),
        line_content_end(l + (seq!['\n'] + rest), 0) == l.len(),
        piece_end(l + (seq!['\n'] + rest), 0) == l.len() + 1,
{
    lemma_find_skip(l, seq!['\n'] + rest, '\n', 0);
    lemma_find_shift(l, seq!['\n'] + rest, '\n', 0);
    let s = l + (seq!['\n'] + rest);
    assert(s[l.len() - 1] == l.last());
}

/// The lines of `joined(ls)` are `ls`.
pub proof fn lemma_joined_lines(ls: Seq<Seq<char>>)
    requires
        forall|i: int| 0 <= i < ls.len() ==> plain_line(#[trigger] ls[i]),
    ensures
        fm_line_count(joined(ls)) == ls.len(),
        forall|i: int| 0 <= i < ls.len() ==> fm_line(joined(ls), i) == #[trigger] ls[i],
    decreases ls.len(),
{
    if ls.len() > 0 {
        let rest = ls.drop_first();
        assert forall|i: int| 0 <= i < rest.len() implies plain_line(#[trigger] rest[i]) by {
            assert(rest[i] == ls[i + 1]);
        }
        lemma_joined_lines(rest);
        let l = ls[0];
        assert(plain_line(l));
        let y = joined(rest);
        let fm = joined(ls);
        let p = l + seq!['\n'];
        assert(fm =~= p + y);
        assert(fm =~= l + (seq!['\n'] + y));
        lemma_first_line(l, y);
        lemma_line_spans_shift(p, y, 0);
        let sy = line_spans(y, 0);
        lemma_shifted_len(sy, p.len() as int);
        assert(line_spans(fm, 0) == seq![(0int, l.len() as int)] + shifted(sy, p.len() as int));
        assert forall|i: int| 0 <= i < ls.len() implies fm_line(fm, i) == #[trigger] ls[i] by {
            if i == 0 {
                assert(fm.subrange(0, l.len() as int) =~= l);
            } else {
                lemma_shifted_index(sy, p.len() as int, i - 1);
                assert(line_spans(fm, 0)[i] == shifted(sy, p.len() as int)[i - 1]);
                let sp = sy[i - 1];
                lemma_spans_bounds(y, 0);
                assert(0 <= sy[i - 1].0 <= sy[i - 1].1 <= y.len());
                assert(fm.subrange(sp.0 + p.len(), sp.1 + p.len()) =~= y.subrange(sp.0, sp.1));
                assert(fm_line(y, i - 1) == rest[i - 1]);
            }
        }
    }
}

/// With the lines `ls` before a `---` line, the fence is found right after them.
proof fn lemma_fence_after(ls: Seq<Seq<char>>, tail: Seq<char>)
    requires
        forall|i: int| 0 <= i < ls.len() ==> plain_line(#[trigger] ls[i]),
    ensures
        closing_fence_from(joined(ls) + (seq!['-', '-', '-', '\n'] + tail), 0) == Some(joined(ls).len() as int),
    decreases ls.len(),
{
    let f = seq!['-', '-', '-', '\n'] + tail;
    if ls.len() == 0 {
        let t = joined(ls) + f;
        assert(t =~= seq!['-', '-', '-'] + (seq!['\n'] + tail));
        lemma_find_skip(seq!['-', '-', '-'], seq!['\n'] + tail, '\n', 0);
        lemma_find_shift(seq!['-', '-', '-'], seq!['\n'] + tail, '\n', 0);
        assert(piece_end(t, 0) == 4);
        assert(t.subrange(0, 4) =~= seq!['-', '-', '-', '\n']);
        assert(seq!['-', '-', '-', '\n'].drop_last() =~= seq!['-', '-', '-']);
        assert(strip_nl_end(seq!['-', '-', '-']) == seq!['-', '-', '-']);
    } else {
        let rest = ls.drop_first();
        assert forall|i: int| 0 <= i < rest.len() implies plain_line(#[trigger] rest[i]) by {
            assert(rest[i] == ls[i + 1]);
        }
        lemma_fence_after(rest, tail);
        let l = ls[0];
        assert(plain_line(l));
        let y = joined(rest) + f;
        let t = joined(ls) + f;
        let p = l + seq!['\n'];
        assert(t =~= p + y);
        assert(t =~= l + (seq!['\n'] + y));
        lemma_first_line(l, y);
        assert(t.subrange(0, l.len() + 1int) =~= l.push('\n'));
        assert(l.push('\n').drop_last() =~= l);
        lemma_strip_plain(l);
        lemma_closing_fence_shift(p, y, 0);
    }
}

proof fn lemma_strip_plain(l: Seq<char>)
    requires
        plain_line(l),
    ensures
        strip_nl_end(l.push('\n')) == l,
{
    assert(l.push('\n').drop_last() =~= l);
    assert(l.push('\n').last() == '\n');
    assert(strip_nl_end(l.push('\n')) == strip_nl_end(l));
    assert(l[l.len() - 1] != '\n');
    assert(strip_nl_end(l) == l);
}

/// The text the writer emits around frontmatter lines `ls` and a body `b`.
pub open spec fn framed(ls: Seq<Seq<char>>, b: Seq<char>) -> Seq<char> {
    seq!['-', '-', '-', '\n'] + joined(ls) + seq!['-', '-', '-', '\n', '\n'] + b
}

/// Framed text splits back into the lines and the body.
pub proof fn lemma_framed_split(ls: Seq<Seq<char>>, b: Seq<char>)
    requires
        forall|i: int| 0 <= i < ls.len() ==> plain_line(#[trigger] ls[i]),
    ensures
        frontmatter_of(framed(ls, b)) == Some(joined(ls)),
        body_of(framed(ls, b)) == b,
{
    let w = framed(ls, b);
    let j = joined(ls);
    let head = seq!['-', '-', '-', '\n'];
    let y = j + (seq!['-', '-', '-', '\n'] + (seq!['\n'] + b));
    assert(w =~= head + y);
    assert(w[0] == '-');
    assert(w.subrange(0, 4) =~= head);
    assert(opens_frontmatter(w));
    lemma_find_skip(seq!['-', '-', '-'], seq!['\n'] + y, '\n', 0);
    assert(w =~= seq!['-', '-', '-'] + (seq!['\n'] + y));
    lemma_find_shift(seq!['-', '-', '-'], seq!['\n'] + y, '\n', 0);
    assert(find_char_from(w, '\n', 0) == 3);
    lemma_fence_after(ls, seq!['\n'] + b);
    lemma_closing_fence_shift(head, y, 0);
    let off: int = 4 + j.len() as int;
    assert(closing_fence_from(w, 4) == Some(off));
    let z = seq!['-', '-', '-', '\n'] + (seq!['\n'] + b);
    assert(w =~= (head + j) + z);
    lemma_piece_end_shift(head + j, z, 0);
    lemma_find_skip(seq!['-', '-', '-'], seq!['\n'] + (seq!['\n'] + b), '\n', 0);
    assert(z =~= seq!['-', '-', '-'] + (seq!['\n'] + (seq!['\n'] + b)));
    lemma_find_shift(seq!['-', '-', '-'], seq!['\n'] + (seq!['\n'] + b), '\n', 0);
    assert(piece_end(z, 0) == 4);
    assert(piece_end(w, off) == off + 4);
    assert(w[off + 4] == '\n');
    assert(starts_with_at(w, off + 4, seq!['\n'])) by {
        assert(w.subrange(off + 4, off + 5) =~= seq!['\n']);
    }
    assert(frontmatter_split(w) == (Some((4int, off)), off + 5));
    assert(w.subrange(4, off) =~= j);
    assert(w.skip(off + 5) =~= b);
}

// ---------------------------------------------------------------------------------------------
// The writer's lines.
// ---------------------------------------------------------------------------------------------

/// The `title:` line for the (trimmed, non-empty) title `t`.
pub open spec fn title_line(t: Seq<char>) -> Seq<char> {
    seq!['t', 'i', 't', 'l', 'e', ':', ' '] + yaml_text(t)
}

/// The `tags:` line for the cleaned tags `ct`.
pub open spec fn tags_line(ct: Seq<Seq<char>>) -> Seq<char> {
    seq!['t', 'a', 'g', 's', ':', ' ', '['] + join_comma(ct) + seq![']']
}

/// The `locked:` line.
pub open spec fn locked_line() -> Seq<char> {
    seq!['l', 'o', 'c', 'k', 'e', 'd', ':', ' ', 't', 'r', 'u', 'e']
}

/// The line for one property.
pub open spec fn prop_line(kv: (Seq<char>, Seq<char>)) -> Seq<char> {
    kv.0 + seq![':', ' '] + yaml_text(kv.1)
}

/// The lines for the properties `ps`, in order.
pub open spec fn prop_line_list(ps: Seq<(Seq<char>, Seq<char>)>) -> Seq<Seq<char>>
    decreases ps.len(),
{
    if ps.len() == 0 {
        seq![]
    } else {
        prop_line_list(ps.drop_last()).push(prop_line(ps.last()))
    }
}

/// The title the writer emits: trimmed, empty when absent.
pub open spec fn written_title(title: Option<Seq<char>>) -> Seq<char> {
    match title {
        Some(t) => trim(t),
        None => seq![],
    }
}

/// Whether the writer emits frontmatter at all.
pub open spec fn has_frontmatter(title: Option<Seq<char>>, tags: Seq<Seq<char>>, locked: bool, props: Seq<(Seq<char>, Seq<char>)>) -> bool {
    written_title(title).len() > 0 || clean_tags(tags).len() > 0 || locked || clean_props(props).len() > 0
}

/// The frontmatter lines the writer emits, in order.
pub open spec fn writer_lines(title: Option<Seq<char>>, tags: Seq<Seq<char>>, locked: bool, props: Seq<(Seq<char>, Seq<char>)>) -> Seq<Seq<char>> {
    let t = written_title(title);
    let ct = clean_tags(tags);
    (if t.len() > 0 {
        seq![title_line(t)]
    } else {
        seq![]
    }) + (if ct.len() > 0 {
        seq![tags_line(ct)]
    } else {
        seq![]
    }) + (if locked {
        seq![locked_line()]
    } else {
        seq![]
    }) + prop_line_list(clean_props(props))
}

proof fn lemma_joined_one(x: Seq<char>)
    ensures
        joined(seq![x]) == x + seq!['\n'],
{
    let one = seq![x];
    assert(one.drop_first() =~= Seq::<Seq<char>>::empty());
    assert(joined(one.drop_first()) == Seq::<char>::empty());
    assert(one[0] == x);
    assert(joined(one) == one[0] + seq!['\n'] + joined(one.drop_first()));
    assert(x + seq!['\n'] + Seq::<char>::empty() =~= x + seq!['\n']);
}

proof fn lemma_prop_lines_joined(ps: Seq<(Seq<char>, Seq<char>)>)
    ensures
        prop_lines(ps) == joined(prop_line_list(ps)),
    decreases ps.len(),
{
    if ps.len() > 0 {
        lemma_prop_lines_joined(ps.drop_last());
        let l = prop_line_list(ps.drop_last());
        let x = prop_line(ps.last());
        lemma_joined_append(l, seq![x]);
        assert(l.push(x) =~= l + seq![x]);
        lemma_joined_one(x);
        assert(prop_lines(ps) =~= joined(l) + (x + seq!['\n']));
    }
}

/// With frontmatter, the writer's text is its lines framed by `---` fences, then the body
/// without leading line breaks.
pub proof fn lemma_written_framed(title: Option<Seq<char>>, tags: Seq<Seq<char>>, locked: bool, props: Seq<(Seq<char>, Seq<char>)>, body: Seq<char>)
    requires
        has_frontmatter(title, tags, locked, props),
    ensures
        written_file(title, tags, locked, props, body) == framed(
            writer_lines(title, tags, locked, props),
            trim_start_newlines(body),
        ),
{
    let t = written_title(title);
    let ct = clean_tags(tags);
    let cp = clean_props(props);
    let a: Seq<Seq<char>> = if t.len() > 0 { seq![title_line(t)] } else { seq![] };
    let b: Seq<Seq<char>> = if ct.len() > 0 { seq![tags_line(ct)] } else { seq![] };
    let c: Seq<Seq<char>> = if locked { seq![locked_line()] } else { seq![] };
    let d = prop_line_list(cp);
    lemma_joined_append(a, b);
    lemma_joined_append(a + b, c);
    lemma_joined_append(a + b + c, d);
    lemma_prop_lines_joined(cp);
    if t.len() > 0 {
        lemma_joined_one(title_line(t));
    }
    if ct.len() > 0 {
        lemma_joined_one(tags_line(ct));
    }
    if locked {
        lemma_joined_one(locked_line());
    }
    assert(joined(Seq::<Seq<char>>::empty()) == Seq::<char>::empty());
    let ja = if t.len() > 0 {
        seq!['t', 'i', 't', 'l', 'e', ':', ' '] + yaml_text(t) + seq!['\n']
    } else {
        seq![]
    };
    let jb = if ct.len() > 0 {
        seq!['t', 'a', 'g', 's', ':', ' ', '['] + join_comma(ct) + seq![']', '\n']
    } else {
        seq![]
    };
    let jc = if locked {
        seq!['l', 'o', 'c', 'k', 'e', 'd', ':', ' ', 't', 'r', 'u', 'e', '\n']
    } else {
        seq![]
    };
    assert(joined(a) =~= ja);
    assert(joined(b) =~= jb);
    assert(joined(c) =~= jc);
    assert(writer_lines(title, tags, locked, props) == a + b + c + d);
    assert(written_file(title, tags, locked, props, body) =~= framed(
        writer_lines(title, tags, locked, props),
        trim_start_newlines(body),
    ));
}

// ---------------------------------------------------------------------------------------------
// Facts about trimming and the writer's scalars.
// ---------------------------------------------------------------------------------------------

/// Whether `s` holds no line break.
pub open spec fn no_newline(s: Seq<char>) -> bool {
    forall|j: int| 0 <= j < s.len() ==> s[j] != '\n'
}

proof fn lemma_trim_start_len(s: Seq<char>)
    ensures
        trim_start(s).len() <= s.len(),
        s.len() > 0 && is_ws(s[0]) ==> trim_start(s).len() < s.len(),
    decreases s.len(),
{
    if s.len() > 0 && is_ws(s[0]) {
        lemma_trim_start_len(s.drop_first());
    }
}

proof fn lemma_trim_end_prefix(s: Seq<char>)
    ensures
        trim_end(s).len() <= s.len(),
        trim_end(s) == s.take(trim_end(s).len() as int),
        s.len() > 0 && is_ws(s.last()) ==> trim_end(s).len() < s.len(),
    decreases s.len(),
{
    if s.len() > 0 && is_ws(s.last()) {
        lemma_trim_end_prefix(s.drop_last());
        assert(s.drop_last().take(trim_end(s).len() as int) =~= s.take(trim_end(s).len() as int));
    } else {
        assert(s.take(s.len() as int) =~= s);
    }
}

/// A trimmed, non-empty text neither starts nor ends with whitespace.
proof fn lemma_trimmed_ends(s: Seq<char>)
    requires
        s == trim(s),
        s.len() > 0,
    ensures
        !is_ws(s[0]),
        !is_ws(s.last()),
{
    lemma_trim_start_len(s);
    lemma_trim_end_prefix(trim_start(s));
    if !is_ws(s[0]) {
        assert(trim_start(s) == s);
        lemma_trim_end_prefix(s);
    }
}

/// A text that neither starts nor ends with whitespace is its own trim.
proof fn lemma_trim_id(s: Seq<char>)
    requires
        s.len() > 0,
        !is_ws(s[0]),
        !is_ws(s.last()),
    ensures
        trim(s) == s,
{
    assert(trim_start(s) == s);
    assert(trim_end(s) == s);
}

/// Trimming is idempotent.
proof fn lemma_trim_trim(s: Seq<char>)
    ensures
        trim(trim(s)) == trim(s),
{
    let t = trim(s);
    lemma_trim_chars(s);
    if t.len() > 0 {
        lemma_trim_shape(s);
        lemma_trim_id(t);
    } else {
        assert(trim_start(t) == t);
        assert(trim_end(t) == t);
    }
}

/// A non-empty trim starts and ends with non-whitespace.
proof fn lemma_trim_shape(s: Seq<char>)
    requires
        trim(s).len() > 0,
    ensures
        !is_ws(trim(s)[0]),
        !is_ws(trim(s).last()),
    decreases s.len(),
{
    let u = trim_start(s);
    lemma_trim_start_first(s);
    lemma_trim_end_prefix(u);
    lemma_trim_end_last(u);
    assert(trim(s)[0] == u[0]);
}

proof fn lemma_trim_start_first(s: Seq<char>)
    ensures
        trim_start(s).len() > 0 ==> !is_ws(trim_start(s)[0]),
    decreases s.len(),
{
    if s.len() > 0 && is_ws(s[0]) {
        lemma_trim_start_first(s.drop_first());
    }
}

proof fn lemma_trim_end_last(s: Seq<char>)
    ensures
        trim_end(s).len() > 0 ==> !is_ws(trim_end(s).last()),
    decreases s.len(),
{
    if s.len() > 0 && is_ws(s.last()) {
        lemma_trim_end_last(s.drop_last());
    }
}

/// Every character of a trim is a character of the text.
proof fn lemma_trim_chars(s: Seq<char>)
    ensures
        forall|j: int| 0 <= j < trim(s).len() ==> exists|k: int| 0 <= k < s.len() && s[k] == #[trigger] trim(s)[j],
{
    crate::text::lemma_trim_start_skip(s);
    let u = trim_start(s);
    let n = crate::text::ws_prefix_len(s) as int;
    lemma_trim_end_prefix(u);
    assert forall|j: int| 0 <= j < trim(s).len() implies exists|k: int| 0 <= k < s.len() && s[k] == #[trigger] trim(s)[j] by {
        assert(trim(s)[j] == u[j]);
        assert(u[j] == s[n + j]);
    }
}

proof fn lemma_trim_no_newline(s: Seq<char>)
    requires
        no_newline(s),
    ensures
        no_newline(trim(s)),
{
    lemma_trim_chars(s);
    assert forall|j: int| 0 <= j < trim(s).len() implies trim(s)[j] != '\n' by {
        let k = choose|k: int| 0 <= k < s.len() && s[k] == trim(s)[j];
    }
}

/// Leading whitespace does not change a trim.
proof fn lemma_trim_space(y: Seq<char>)
    ensures
        trim(seq![' '] + y) == trim(y),
{
    let s = seq![' '] + y;
    assert(s.drop_first() =~= y);
    assert(is_ws(s[0]));
    assert(trim_start(s) == trim_start(y));
}

proof fn lemma_escape_no_newline(s: Seq<char>)
    ensures
        no_newline(escape(s)),
    decreases s.len(),
{
    if s.len() > 0 {
        lemma_escape_no_newline(s.drop_last());
        let e = crate::yaml::escaped(s.last());
        assert(no_newline(e));
        assert forall|j: int| 0 <= j < escape(s).len() implies escape(s)[j] != '\n' by {
            let a = escape(s.drop_last());
            if j < a.len() {
                assert(escape(s)[j] == a[j]);
            } else {
                assert(escape(s)[j] == e[j - a.len()]);
            }
        }
    }
}

/// The writer's YAML text for a value: one non-empty line that starts and ends with
/// non-whitespace.
proof fn lemma_yaml_text_shape(v: Seq<char>)
    ensures
        yaml_text(v).len() > 0,
        no_newline(yaml_text(v)),
        !is_ws(yaml_text(v)[0]),
        !is_ws(yaml_text(v).last()),
{
    if plain_safe(v) {
        lemma_trimmed_ends(v);
        assert forall|j: int| 0 <= j < v.len() implies v[j] != '\n' by {
            assert(!crate::yaml::is_control(v[j]));
        }
    } else {
        let e = escape(v);
        lemma_escape_no_newline(v);
        let q = seq!['"'] + e + seq!['"'];
        assert forall|j: int| 0 <= j < q.len() implies q[j] != '\n' by {
            if 0 < j < q.len() - 1 {
                assert(q[j] == e[j - 1]);
            }
        }
    }
}

proof fn lemma_join_comma_no_newline(xs: Seq<Seq<char>>)
    requires
        forall|i: int| 0 <= i < xs.len() ==> no_newline(#[trigger] xs[i]),
    ensures
        no_newline(join_comma(xs)),
    decreases xs.len(),
{
    if xs.len() > 1 {
        lemma_join_comma_no_newline(xs.drop_last());
        let a = join_comma(xs.drop_last());
        let j2 = a + seq![',', ' '] + xs.last();
        assert(no_newline(xs.last()));
        assert forall|j: int| 0 <= j < j2.len() implies j2[j] != '\n' by {
            if j < a.len() {
                assert(j2[j] == a[j]);
            } else if j >= a.len() + 2 {
                assert(j2[j] == xs.last()[j - a.len() - 2]);
            }
        }
    } else if xs.len() == 1 {
        assert(no_newline(xs[0]));
    }
}

proof fn lemma_clean_tags_no_newline(tags: Seq<Seq<char>>)
    requires
        forall|i: int| 0 <= i < tags.len() ==> no_newline(#[trigger] tags[i]),
    ensures
        forall|i: int| 0 <= i < clean_tags(tags).len() ==> no_newline(#[trigger] clean_tags(tags)[i]),
    decreases tags.len(),
{
    if tags.len() > 0 {
        let init = tags.drop_last();
        assert forall|i: int| 0 <= i < init.len() implies no_newline(#[trigger] init[i]) by {
            assert(init[i] == tags[i]);
        }
        lemma_clean_tags_no_newline(init);
        assert(no_newline(tags.last()));
        lemma_trim_no_newline(tags.last());
        let c = clean_tags(tags);
        let a = clean_tags(init);
        assert forall|i: int| 0 <= i < c.len() implies no_newline(#[trigger] c[i]) by {
            if i < a.len() {
                assert(c[i] == a[i]);
            } else {
                assert(c[i] == trim(tags.last()));
            }
        }
    }
}

/// The properties the writer keeps have well-formed, unmanaged keys.
proof fn lemma_clean_props_keys(props: Seq<(Seq<char>, Seq<char>)>)
    ensures
        forall|i: int| 0 <= i < clean_props(props).len() ==> prop_key_ok(#[trigger] clean_props(props)[i].0)
            && !is_managed(clean_props(props)[i].0),
    decreases props.len(),
{
    if props.len() > 0 {
        lemma_clean_props_keys(props.drop_last());
        let c = clean_props(props);
        let a = clean_props(props.drop_last());
        assert forall|i: int| 0 <= i < c.len() implies prop_key_ok(#[trigger] c[i].0) && !is_managed(c[i].0) by {
            if i < a.len() {
                assert(c[i] == a[i]);
            }
        }
    }
}

proof fn lemma_prop_line_list(ps: Seq<(Seq<char>, Seq<char>)>)
    ensures
        prop_line_list(ps).len() == ps.len(),
        forall|i: int| 0 <= i < ps.len() ==> #[trigger] prop_line_list(ps)[i] == prop_line(ps[i]),
    decreases ps.len(),
{
    if ps.len() > 0 {
        lemma_prop_line_list(ps.drop_last());
        assert forall|i: int| 0 <= i < ps.len() implies #[trigger] prop_line_list(ps)[i] == prop_line(ps[i]) by {
            if i < ps.len() - 1 {
                assert(prop_line_list(ps)[i] == prop_line_list(ps.drop_last())[i]);
                assert(ps.drop_last()[i] == ps[i]);
            }
        }
    }
}

// ---------------------------------------------------------------------------------------------
// The writer's lines are whole, trimmed lines.
// ---------------------------------------------------------------------------------------------

/// A line the writer emits reads back as itself: a plain line that is its own trim.
pub open spec fn good_line(l: Seq<char>) -> bool {
    plain_line(l) && trim(l) == l
}

proof fn lemma_good_concat(x: Seq<Seq<char>>, y: Seq<Seq<char>>)
    requires
        forall|i: int| 0 <= i < x.len() ==> good_line(#[trigger] x[i]),
        forall|i: int| 0 <= i < y.len() ==> good_line(#[trigger] y[i]),
    ensures
        forall|i: int| 0 <= i < (x + y).len() ==> good_line(#[trigger] (x + y)[i]),
{
    assert forall|i: int| 0 <= i < (x + y).len() implies good_line(#[trigger] (x + y)[i]) by {
        if i < x.len() {
            assert((x + y)[i] == x[i]);
        } else {
            assert((x + y)[i] == y[i - x.len()]);
        }
    }
}

/// A line made of `pre`, whose first character is a letter and which holds no line break, then
/// the YAML text of `v`.
proof fn lemma_keyed_line(pre: Seq<char>, v: Seq<char>)
    requires
        pre.len() > 0,
        crate::text::is_ascii_alpha(pre[0]),
        no_newline(pre),
    ensures
        good_line(pre + yaml_text(v)),
{
    let y = yaml_text(v);
    lemma_yaml_text_shape(v);
    let l = pre + y;
    assert(l[0] == pre[0]);
    assert(l.last() == y.last());
    assert(no_newline(l)) by {
        assert forall|j: int| 0 <= j < l.len() implies l[j] != '\n' by {
            if j < pre.len() {
                assert(l[j] == pre[j]);
            } else {
                assert(l[j] == y[j - pre.len()]);
            }
        }
    }
    assert(l != dashes3()) by {
        if l == dashes3() {
            assert(l[0] == '-');
        }
    }
    lemma_trim_id(l);
}

proof fn lemma_writer_lines_good(title: Option<Seq<char>>, tags: Seq<Seq<char>>, locked: bool, props: Seq<(Seq<char>, Seq<char>)>)
    requires
        forall|i: int| 0 <= i < tags.len() ==> no_newline(#[trigger] tags[i]),
    ensures
        forall|i: int| 0 <= i < writer_lines(title, tags, locked, props).len() ==> good_line(
            #[trigger] writer_lines(title, tags, locked, props)[i],
        ),
{
    let t = written_title(title);
    let ct = clean_tags(tags);
    let cp = clean_props(props);
    let a: Seq<Seq<char>> = if t.len() > 0 { seq![title_line(t)] } else { seq![] };
    let b: Seq<Seq<char>> = if ct.len() > 0 { seq![tags_line(ct)] } else { seq![] };
    let c: Seq<Seq<char>> = if locked { seq![locked_line()] } else { seq![] };
    let d = prop_line_list(cp);
    if t.len() > 0 {
        let pre = seq!['t', 'i', 't', 'l', 'e', ':', ' '];
        lemma_keyed_line(pre, t);
        assert(a[0] == pre + yaml_text(t));
    }
    if ct.len() > 0 {
        lemma_clean_tags_no_newline(tags);
        lemma_join_comma_no_newline(ct);
        let l = tags_line(ct);
        let jc = join_comma(ct);
        assert(no_newline(l)) by {
            assert forall|j: int| 0 <= j < l.len() implies l[j] != '\n' by {
                if 7 <= j < 7 + jc.len() {
                    assert(l[j] == jc[j - 7]);
                }
            }
        }
        assert(l.last() == ']');
        assert(l != dashes3()) by {
            if l == dashes3() {
                assert(l[0] == '-');
            }
        }
        lemma_trim_id(l);
        assert(b[0] == l);
    }
    if locked {
        let l = locked_line();
        assert(l != dashes3()) by {
            if l == dashes3() {
                assert(l[0] == '-');
            }
        }
        lemma_trim_id(l);
        assert(c[0] == l);
    }
    lemma_prop_line_list(cp);
    lemma_clean_props_keys(props);
    assert forall|i: int| 0 <= i < d.len() implies good_line(#[trigger] d[i]) by {
        let k = cp[i].0;
        let pre = k + seq![':', ' '];
        assert(prop_key_ok(k));
        assert(no_newline(pre)) by {
            assert forall|j: int| 0 <= j < pre.len() implies pre[j] != '\n' by {
                if j < k.len() {
                    assert(pre[j] == k[j]);
                    if j > 0 {
                        assert(crate::text::is_ascii_alnum(k[j]) || k[j] == '_' || k[j] == '-');
                    }
                }
            }
        }
        assert(pre[0] == k[0]);
        lemma_keyed_line(pre, cp[i].1);
        assert(d[i] == prop_line(cp[i]));
        assert(prop_line(cp[i]) == pre + yaml_text(cp[i].1));
    }
    lemma_good_concat(a, b);
    lemma_good_concat(a + b, c);
    lemma_good_concat(a + b + c, d);
}

/// A property line never begins with a managed keyword `w:` (`title:`, `tags:` or `locked:`).
proof fn lemma_prop_line_not_keyword(k: Seq<char>, rest: Seq<char>, w: Seq<char>)
    requires
        prop_key_ok(k),
        !is_managed(k),
        w == seq!['t', 'i', 't', 'l', 'e'] || w == seq!['t', 'a', 'g', 's'] || w == seq![
            'l',
            'o',
            'c',
            'k',
            'e',
            'd',
        ],
    ensures
        !starts_with(k + seq![':', ' '] + rest, w.push(':')),
{
    let l = k + seq![':', ' '] + rest;
    let kw = w.push(':');
    if starts_with(l, kw) {
        let m = k.len();
        if m < w.len() {
            assert(l[m as int] == ':');
            assert(l.take(kw.len() as int)[m as int] == kw[m as int]);
        } else if m == w.len() {
            assert forall|j: int| 0 <= j < m implies k[j] == w[j] by {
                assert(l[j] == k[j]);
                assert(l.take(kw.len() as int)[j] == kw[j]);
            }
            assert(k =~= w);
            assert(crate::text::eq_ci(k, w));
        } else {
            let n = w.len() as int;
            assert(l[n] == k[n]);
            assert(l.take(kw.len() as int)[n] == kw[n]);
            assert(crate::text::is_ascii_alnum(k[n]) || k[n] == '_' || k[n] == '-');
        }
    }
}

proof fn lemma_title_none(fm: Seq<char>, i: int)
    requires
        0 <= i,
        forall|j: int| i <= j < fm_line_count(fm) ==> !starts_with(trim(#[trigger] fm_line(fm, j)), kw_title()),
    ensures
        title_from(fm, i) is None,
    decreases fm_line_count(fm) - i,
{
    if i < fm_line_count(fm) {
        lemma_title_none(fm, i + 1);
    }
}

proof fn lemma_locked_skip(fm: Seq<char>, i: int, target: int)
    requires
        0 <= i <= target,
        forall|j: int| i <= j < target && j < fm_line_count(fm) ==> !starts_with(trim(#[trigger] fm_line(fm, j)), kw_locked()),
    ensures
        locked_from(fm, i) == locked_from(fm, target),
    decreases target - i,
{
    if i < target && i < fm_line_count(fm) {
        lemma_locked_skip(fm, i + 1, target);
    } else if i < target {
        lemma_locked_none(fm, i);
        lemma_locked_none(fm, target);
    }
}

proof fn lemma_locked_none(fm: Seq<char>, i: int)
    requires
        0 <= i,
        i >= fm_line_count(fm),
    ensures
        !locked_from(fm, i),
{
}

/// `l` does not begin with `kw` when their first characters differ.
proof fn lemma_differs_at(l: Seq<char>, kw: Seq<char>, j: int)
    requires
        0 <= j < l.len(),
        j < kw.len(),
        l[j] != kw[j],
    ensures
        !starts_with(l, kw),
{
    if starts_with(l, kw) {
        assert(l.take(kw.len() as int)[j] == kw[j]);
    }
}

proof fn lemma_scalar_after_space(y: Seq<char>)
    ensures
        scalar_value(seq![' '] + y) == scalar_value(y),
{
    lemma_trim_space(y);
}

proof fn lemma_lines_of_writer(title: Option<Seq<char>>, tags: Seq<Seq<char>>, locked: bool, props: Seq<(Seq<char>, Seq<char>)>, body: Seq<char>)
    requires
        has_frontmatter(title, tags, locked, props),
        forall|i: int| 0 <= i < tags.len() ==> no_newline(#[trigger] tags[i]),
    ensures
        ({
            let ls = writer_lines(title, tags, locked, props);
            let w = written_file(title, tags, locked, props, body);
            &&& frontmatter_of(w) == Some(joined(ls))
            &&& body_of(w) == trim_start_newlines(body)
            &&& fm_line_count(joined(ls)) == ls.len()
            &&& forall|i: int| 0 <= i < ls.len() ==> fm_line(joined(ls), i) == #[trigger] ls[i] && trim(ls[i]) == ls[i]
        }),
{
    let ls = writer_lines(title, tags, locked, props);
    lemma_written_framed(title, tags, locked, props, body);
    lemma_writer_lines_good(title, tags, locked, props);
    assert forall|i: int| 0 <= i < ls.len() implies plain_line(#[trigger] ls[i]) by {
        assert(good_line(ls[i]));
    }
    lemma_framed_split(ls, trim_start_newlines(body));
    lemma_joined_lines(ls);
    assert forall|i: int| 0 <= i < ls.len() implies fm_line(joined(ls), i) == #[trigger] ls[i] && trim(ls[i]) == ls[i] by {
        assert(good_line(ls[i]));
    }
}

/// How many lines of each kind the writer emits before the properties.
pub open spec fn title_count(title: Option<Seq<char>>) -> int {
    if written_title(title).len() > 0 { 1 } else { 0 }
}

pub open spec fn tags_count(tags: Seq<Seq<char>>) -> int {
    if clean_tags(tags).len() > 0 { 1 } else { 0 }
}

/// The writer's lines by kind, and which of them start with the `title:` and `locked:` keywords.
proof fn lemma_writer_line_kinds(title: Option<Seq<char>>, tags: Seq<Seq<char>>, locked: bool, props: Seq<(Seq<char>, Seq<char>)>)
    ensures
        ({
            let ls = writer_lines(title, tags, locked, props);
            let na = title_count(title);
            let nb = tags_count(tags);
            let nc: int = if locked { 1 } else { 0 };
            &&& ls.len() == na + nb + nc + clean_props(props).len()
            &&& na == 1 ==> ls[0] == title_line(written_title(title))
            &&& locked ==> ls[na + nb] == locked_line()
            &&& forall|i: int| na <= i < ls.len() ==> !starts_with(#[trigger] ls[i], kw_title())
            &&& forall|i: int| 0 <= i < ls.len() && !(locked && i == na + nb) ==> !starts_with(#[trigger] ls[i], kw_locked())
        }),
{
    let ls = writer_lines(title, tags, locked, props);
    let t = written_title(title);
    let ct = clean_tags(tags);
    let cp = clean_props(props);
    let a: Seq<Seq<char>> = if t.len() > 0 { seq![title_line(t)] } else { seq![] };
    let b: Seq<Seq<char>> = if ct.len() > 0 { seq![tags_line(ct)] } else { seq![] };
    let c: Seq<Seq<char>> = if locked { seq![locked_line()] } else { seq![] };
    let d = prop_line_list(cp);
    assert(ls == a + b + c + d);
    lemma_prop_line_list(cp);
    lemma_clean_props_keys(props);
    let na = a.len() as int;
    let nb = b.len() as int;
    let nc = c.len() as int;
    let kt = kw_title();
    let kl = kw_locked();
    assert(kt == seq!['t', 'i', 't', 'l', 'e'].push(':'));
    assert(kl == seq!['l', 'o', 'c', 'k', 'e', 'd'].push(':'));
    assert forall|i: int| na <= i < ls.len() implies !starts_with(#[trigger] ls[i], kt) by {
        if i < na + nb {
            assert(ls[i] == tags_line(ct));
            lemma_differs_at(ls[i], kt, 1);
        } else if i < na + nb + nc {
            assert(ls[i] == locked_line());
            lemma_differs_at(ls[i], kt, 0);
        } else {
            let kv = cp[i - na - nb - nc];
            assert(ls[i] == d[i - na - nb - nc]);
            lemma_prop_line_not_keyword(kv.0, yaml_text(kv.1), seq!['t', 'i', 't', 'l', 'e']);
        }
    }
    assert forall|i: int| 0 <= i < ls.len() && !(locked && i == na + nb) implies !starts_with(#[trigger] ls[i], kl) by {
        if i < na {
            assert(ls[i] == title_line(t));
            lemma_differs_at(ls[i], kl, 0);
        } else if i < na + nb {
            assert(ls[i] == tags_line(ct));
            lemma_differs_at(ls[i], kl, 0);
        } else {
            let kv = cp[i - na - nb - nc];
            assert(ls[i] == d[i - na - nb - nc]);
            lemma_prop_line_not_keyword(kv.0, yaml_text(kv.1), seq!['l', 'o', 'c', 'k', 'e', 'd']);
        }
    }
}

proof fn lemma_title_part(title: Option<Seq<char>>, ls: Seq<Seq<char>>, fm: Seq<char>)
    requires
        fm_line_count(fm) == ls.len(),
        forall|i: int| 0 <= i < ls.len() ==> fm_line(fm, i) == #[trigger] ls[i] && trim(ls[i]) == ls[i],
        title_count(title) <= ls.len(),
        title_count(title) == 1 ==> ls[0] == title_line(written_title(title)),
        forall|i: int| title_count(title) <= i < ls.len() ==> !starts_with(#[trigger] ls[i], kw_title()),
    ensures
        (match title_from(fm, 0) {
            Some(t) => if trim(t).len() == 0 { None } else { Some(t) },
            None => None,
        }) == if written_title(title).len() > 0 {
            Some(written_title(title))
        } else {
            None
        },
{
    let t = written_title(title);
    if t.len() > 0 {
        let l = title_line(t);
        assert(title_count(title) == 1);
        assert(ls[0] == l);
        assert(fm_line(fm, 0) == ls[0] && trim(ls[0]) == ls[0]);
        assert(l.take(6) =~= kw_title());
        assert(l.skip(6) =~= seq![' '] + yaml_text(t));
        lemma_scalar_after_space(yaml_text(t));
        lemma_yaml_round_trip(t);
        assert(title_from(fm, 0) == Some(t));
        lemma_trim_trim(match title { Some(x) => x, None => seq![] });
    } else {
        assert forall|j: int| 0 <= j < fm_line_count(fm) implies !starts_with(trim(#[trigger] fm_line(fm, j)), kw_title()) by {
            assert(fm_line(fm, j) == ls[j] && trim(ls[j]) == ls[j]);
        }
        lemma_title_none(fm, 0);
    }
}

proof fn lemma_locked_part(locked: bool, idx: int, ls: Seq<Seq<char>>, fm: Seq<char>)
    requires
        0 <= idx,
        fm_line_count(fm) == ls.len(),
        forall|i: int| 0 <= i < ls.len() ==> fm_line(fm, i) == #[trigger] ls[i] && trim(ls[i]) == ls[i],
        locked ==> idx < ls.len() && ls[idx] == locked_line(),
        forall|i: int| 0 <= i < ls.len() && !(locked && i == idx) ==> !starts_with(#[trigger] ls[i], kw_locked()),
    ensures
        locked_from(fm, 0) == locked,
{
    let kl = kw_locked();
    if locked {
        assert forall|j: int| 0 <= j < idx && j < fm_line_count(fm) implies !starts_with(trim(#[trigger] fm_line(fm, j)), kl) by {
            assert(fm_line(fm, j) == ls[j] && trim(ls[j]) == ls[j]);
        }
        lemma_locked_skip(fm, 0, idx);
        let l = locked_line();
        assert(fm_line(fm, idx) == l && trim(l) == l);
        assert(l.take(7) =~= kl);
        let tr = seq!['t', 'r', 'u', 'e'];
        assert(l.skip(7) =~= seq![' '] + tr);
        lemma_trim_space(tr);
        lemma_trim_id(tr);
        assert(scalar_value(l.skip(7)) == tr);
        assert(lower_all(tr) =~= tr);
    } else {
        assert forall|j: int| 0 <= j < fm_line_count(fm) && j < fm_line_count(fm) implies !starts_with(trim(#[trigger] fm_line(fm, j)), kl) by {
            assert(fm_line(fm, j) == ls[j] && trim(ls[j]) == ls[j]);
        }
        lemma_locked_skip(fm, 0, fm_line_count(fm));
        lemma_locked_none(fm, fm_line_count(fm));
    }
}

/// What the block-file writer emits with frontmatter reads back through the parser: the body
/// (less the blank lines it starts with, which the writer drops), the trimmed title (none when
/// blank), and the `locked` flag. This holds whenever no managed tag holds a line break.
pub proof fn lemma_written_block_reads_back(
    title: Option<Seq<char>>,
    tags: Seq<Seq<char>>,
    locked: bool,
    props: Seq<(Seq<char>, Seq<char>)>,
    body: Seq<char>,
)
    requires
        has_frontmatter(title, tags, locked, props),
        forall|i: int| 0 <= i < tags.len() ==> no_newline(#[trigger] tags[i]),
    ensures
        body_of(written_file(title, tags, locked, props, body)) == trim_start_newlines(body),
        file_title(written_file(title, tags, locked, props, body)) == if written_title(title).len() > 0 {
            Some(written_title(title))
        } else {
            None
        },
        file_locked(written_file(title, tags, locked, props, body)) == locked,
{
    lemma_lines_of_writer(title, tags, locked, props, body);
    lemma_writer_line_kinds(title, tags, locked, props);
    let ls = writer_lines(title, tags, locked, props);
    let fm = joined(ls);
    lemma_title_part(title, ls, fm);
    lemma_locked_part(locked, title_count(title) + tags_count(tags), ls, fm);
}

/// Without frontmatter the writer emits the body alone, and a body that does not itself open
/// with a `---` line reads back unchanged, with no title and unlocked.
pub proof fn lemma_plain_body_reads_back(body: Seq<char>)
    requires
        !opens_frontmatter(body),
    ensures
        body_of(body) == body,
        file_title(body) is None,
        !file_locked(body),
{
    assert(body.skip(0) =~= body);
}


// ---------------------------------------------------------------------------------------------
// The managed tags.
// ---------------------------------------------------------------------------------------------

/// A tag that the writer's `[a, b]` list carries intact: no comma, and no quote at either end.
pub open spec fn flow_safe(t: Seq<char>) -> bool {
    &&& forall|j: int| 0 <= j < t.len() ==> t[j] != ','
    &&& t.len() > 0 ==> !is_quote(t[0]) && !is_quote(t.last())
}

/// Cleaned tags that the writer's `tags: [..]` line reads back as written: each flow-safe, the
/// first not starting with `[` and the last not ending with `]`.
pub open spec fn flow_list_safe(ct: Seq<Seq<char>>) -> bool {
    &&& forall|i: int| 0 <= i < ct.len() ==> flow_safe(#[trigger] ct[i])
    &&& ct.len() > 0 ==> ct[0].len() > 0 && ct[0][0] != '[' && ct.last().len() > 0 && ct.last().last() != ']'
}

/// The tags the writer keeps are trimmed and non-empty.
proof fn lemma_clean_tags_trimmed(tags: Seq<Seq<char>>)
    ensures
        forall|i: int| 0 <= i < clean_tags(tags).len() ==> (#[trigger] clean_tags(tags)[i]).len() > 0
            && trim(clean_tags(tags)[i]) == clean_tags(tags)[i],
    decreases tags.len(),
{
    if tags.len() > 0 {
        lemma_clean_tags_trimmed(tags.drop_last());
        lemma_trim_trim(tags.last());
        let c = clean_tags(tags);
        let a = clean_tags(tags.drop_last());
        assert forall|i: int| 0 <= i < c.len() implies (#[trigger] c[i]).len() > 0 && trim(c[i]) == c[i] by {
            if i < a.len() {
                assert(c[i] == a[i]);
            } else {
                assert(c[i] == trim(tags.last()));
            }
        }
    }
}

/// `join_comma` read from the front.
proof fn lemma_join_comma_front(xs: Seq<Seq<char>>)
    requires
        xs.len() >= 2,
    ensures
        join_comma(xs) == xs[0] + seq![',', ' '] + join_comma(xs.drop_first()),
    decreases xs.len(),
{
    if xs.len() == 2 {
        assert(xs.drop_last().len() == 1);
        assert(join_comma(xs.drop_last()) == xs[0]);
        assert(xs.drop_first().len() == 1);
        assert(join_comma(xs.drop_first()) == xs[1]);
    } else {
        lemma_join_comma_front(xs.drop_last());
        assert(xs.drop_last().drop_first() =~= xs.drop_first().drop_last());
        assert(xs.drop_first().last() == xs.last());
        assert(join_comma(xs) =~= xs[0] + seq![',', ' '] + join_comma(xs.drop_first()));
    }
}

/// The first and last characters of a comma-joined list of non-empty items.
proof fn lemma_join_comma_ends(xs: Seq<Seq<char>>)
    requires
        xs.len() > 0,
        xs[0].len() > 0,
        xs.last().len() > 0,
    ensures
        join_comma(xs).len() > 0,
        join_comma(xs)[0] == xs[0][0],
        join_comma(xs).last() == xs.last().last(),
{
    if xs.len() >= 2 {
        lemma_join_comma_front(xs);
        let a = join_comma(xs.drop_last());
        assert(join_comma(xs) == a + seq![',', ' '] + xs.last());
    }
}

/// A tag item, possibly after the space the writer puts behind a comma, reads back as itself.
proof fn lemma_clean_item_tag(lead: Seq<char>, x: Seq<char>)
    requires
        lead == Seq::<char>::empty() || lead == seq![' '],
        x.len() > 0,
        trim(x) == x,
        flow_safe(x),
    ensures
        clean_item(lead + x) == x,
{
    if lead.len() == 1 {
        assert(lead + x =~= seq![' '] + x);
        lemma_trim_space(x);
    } else {
        assert(lead + x =~= x);
    }
    assert(trim_start_quotes(x) == x);
    assert(trim_end_quotes(x) == x);
}

/// The items of a comma-joined list of flow-safe tags are the tags.
proof fn lemma_flow_items_join(xs: Seq<Seq<char>>, lead: Seq<char>)
    requires
        xs.len() > 0,
        lead == Seq::<char>::empty() || lead == seq![' '],
        forall|i: int| 0 <= i < xs.len() ==> flow_safe(#[trigger] xs[i]) && xs[i].len() > 0 && trim(xs[i]) == xs[i],
    ensures
        flow_items(lead + join_comma(xs)) == xs,
    decreases xs.len(),
{
    let x = xs[0];
    assert(flow_safe(x) && x.len() > 0 && trim(x) == x);
    let s = lead + join_comma(xs);
    lemma_find_char_from(s, ',', 0);
    let k = find_char_from(s, ',', 0);
    lemma_clean_item_tag(lead, x);
    if xs.len() == 1 {
        assert(join_comma(xs) == x);
        assert forall|j: int| 0 <= j < s.len() implies s[j] != ',' by {
            if j >= lead.len() {
                assert(s[j] == x[j - lead.len()]);
            }
        }
        assert(k == s.len()) by {
            if k < s.len() {
                assert(s[k] == ',');
            }
        }
        assert(flow_items(s) == seq![clean_item(s)]);
        assert(flow_items(s) =~= xs);
    } else {
        lemma_join_comma_front(xs);
        let rest = join_comma(xs.drop_first());
        let m: int = (lead.len() + x.len()) as int;
        assert(s =~= (lead + x) + (seq![',', ' '] + rest));
        assert forall|j: int| 0 <= j < m implies s[j] != ',' by {
            if j >= lead.len() {
                assert(s[j] == x[j - lead.len()]);
            }
        }
        assert(s[m] == ',');
        assert(k == m) by {
            if k < m {
                assert(s[k] == ',');
            } else if k > m {
                assert(s[m] != ',');
            }
        }
        assert(s.take(k) =~= lead + x);
        assert(s.skip(k + 1) =~= seq![' '] + rest);
        let tl = xs.drop_first();
        assert forall|i: int| 0 <= i < tl.len() implies flow_safe(#[trigger] tl[i]) && tl[i].len() > 0 && trim(tl[i]) == tl[i] by {
            assert(tl[i] == xs[i + 1]);
        }
        lemma_flow_items_join(tl, seq![' ']);
        assert(flow_items(s) == seq![x] + tl);
        assert(flow_items(s) =~= xs);
    }
}

proof fn lemma_tags_none(fm: Seq<char>, i: int)
    requires
        0 <= i,
        forall|j: int| i <= j < fm_line_count(fm) ==> !starts_with(trim(#[trigger] fm_line(fm, j)), kw_tags()),
    ensures
        tags_from(fm, i) == Seq::<Seq<char>>::empty(),
    decreases fm_line_count(fm) - i,
{
    if i < fm_line_count(fm) {
        lemma_tags_none(fm, i + 1);
    }
}

/// The `tags:` line the writer emits reads back as the tags.
proof fn lemma_tags_line_items(ct: Seq<Seq<char>>)
    requires
        ct.len() > 0,
        flow_list_safe(ct),
        forall|i: int| 0 <= i < ct.len() ==> (#[trigger] ct[i]).len() > 0 && trim(ct[i]) == ct[i],
    ensures
        ({
            let l = tags_line(ct);
            let rest = trim(l.skip(5));
            &&& starts_with(l, kw_tags())
            &&& rest.len() > 0 && rest[0] == '['
            &&& flow_items(trim_end_char(trim_start_char(rest, '['), ']')) == ct
        }),
{
    let l = tags_line(ct);
    let jc = join_comma(ct);
    lemma_join_comma_ends(ct);
    assert(l.take(5) =~= kw_tags());
    let inner = seq!['['] + jc + seq![']'];
    assert(l.skip(5) =~= seq![' '] + inner);
    lemma_trim_space(inner);
    assert(inner[0] == '[');
    assert(inner.last() == ']');
    lemma_trim_id(inner);
    let rest = trim(l.skip(5));
    assert(rest == inner);
    let u = jc + seq![']'];
    assert(inner.drop_first() =~= u);
    assert(u[0] == jc[0]);
    assert(trim_start_char(u, '[') == u);
    assert(trim_start_char(inner, '[') == u);
    assert(u.drop_last() =~= jc);
    assert(trim_end_char(jc, ']') == jc);
    assert(trim_end_char(u, ']') == jc);
    assert(seq![] + jc =~= jc);
    lemma_flow_items_join(ct, seq![]);
}

/// The managed tags the writer emits read back as written (each trimmed, blank ones dropped),
/// whenever its `tags: [..]` list can carry them: no tag holds a line break or a comma or starts
/// or ends with a quote, the first does not start with `[` and the last does not end with `]`.
pub proof fn lemma_written_tags_read_back(
    title: Option<Seq<char>>,
    tags: Seq<Seq<char>>,
    locked: bool,
    props: Seq<(Seq<char>, Seq<char>)>,
    body: Seq<char>,
)
    requires
        has_frontmatter(title, tags, locked, props),
        forall|i: int| 0 <= i < tags.len() ==> no_newline(#[trigger] tags[i]),
        flow_list_safe(clean_tags(tags)),
    ensures
        file_fm_tags(written_file(title, tags, locked, props, body)) == clean_tags(tags),
{
    lemma_lines_of_writer(title, tags, locked, props, body);
    lemma_writer_line_kinds(title, tags, locked, props);
    lemma_clean_tags_trimmed(tags);
    let ls = writer_lines(title, tags, locked, props);
    let fm = joined(ls);
    let ct = clean_tags(tags);
    let t = written_title(title);
    let cp = clean_props(props);
    let na = title_count(title);
    let nb = tags_count(tags);
    let a: Seq<Seq<char>> = if t.len() > 0 { seq![title_line(t)] } else { seq![] };
    let b: Seq<Seq<char>> = if ct.len() > 0 { seq![tags_line(ct)] } else { seq![] };
    let c: Seq<Seq<char>> = if locked { seq![locked_line()] } else { seq![] };
    let d = prop_line_list(cp);
    assert(ls == a + b + c + d);
    lemma_prop_line_list(cp);
    lemma_clean_props_keys(props);
    let kg = kw_tags();
    assert(kg == seq!['t', 'a', 'g', 's'].push(':'));
    assert forall|i: int| 0 <= i < ls.len() && !(nb == 1 && i == na) implies !starts_with(#[trigger] ls[i], kg) by {
        if i < na {
            assert(ls[i] == title_line(t));
            lemma_differs_at(ls[i], kg, 1);
        } else if i < na + nb {
        } else if i < na + nb + c.len() {
            assert(ls[i] == locked_line());
            lemma_differs_at(ls[i], kg, 0);
        } else {
            let kv = cp[i - na - nb - c.len()];
            assert(ls[i] == d[i - na - nb - c.len()]);
            lemma_prop_line_not_keyword(kv.0, yaml_text(kv.1), seq!['t', 'a', 'g', 's']);
        }
    }
    if nb == 1 {
        assert(ls[na] == tags_line(ct));
        lemma_tags_line_items(ct);
        assert(fm_line(fm, na) == ls[na] && trim(ls[na]) == ls[na]);
        assert forall|j: int| na + 1 <= j < fm_line_count(fm) implies !starts_with(trim(#[trigger] fm_line(fm, j)), kg) by {
            assert(fm_line(fm, j) == ls[j] && trim(ls[j]) == ls[j]);
        }
        lemma_tags_none(fm, na + 1);
        assert(tags_from(fm, na) == ct + Seq::<Seq<char>>::empty());
        if na == 1 {
            assert(fm_line(fm, 0) == ls[0] && trim(ls[0]) == ls[0]);
            assert(tags_from(fm, 0) == tags_from(fm, 1));
        }
        assert(tags_from(fm, 0) =~= ct);
    } else {
        assert forall|j: int| 0 <= j < fm_line_count(fm) implies !starts_with(trim(#[trigger] fm_line(fm, j)), kg) by {
            assert(fm_line(fm, j) == ls[j] && trim(ls[j]) == ls[j]);
        }
        lemma_tags_none(fm, 0);
        assert(ct.len() == 0);
        assert(tags_from(fm, 0) =~= ct);
    }
}

// ---------------------------------------------------------------------------------------------
// The properties.
// ---------------------------------------------------------------------------------------------

/// Properties a parse keeps one for one: non-empty values, and keys that differ pairwise
/// ignoring ASCII case.
pub open spec fn props_readable(ps: Seq<(Seq<char>, Seq<char>)>) -> bool {
    &&& forall|i: int| 0 <= i < ps.len() ==> (#[trigger] ps[i]).1.len() > 0
    &&& forall|i: int, j: int| 0 <= i < j < ps.len() ==> !eq_ci(#[trigger] ps[i].0, #[trigger] ps[j].0)
}

/// A line `k: rest` with a key that starts with a letter and holds neither a colon nor
/// whitespace splits at its first colon into that key and ` rest`.
proof fn lemma_key_colon_line(k: Seq<char>, rest: Seq<char>)
    requires
        k.len() > 0,
        crate::text::is_ascii_alpha(k[0]),
        forall|j: int| 0 <= j < k.len() ==> k[j] != ':' && !is_ws(#[trigger] k[j]),
    ensures
        ({
            let l = k + seq![':', ' '] + rest;
            &&& !(l[0] == ' ' || l[0] == '\t')
            &&& find_char_from(l, ':', 0) == k.len()
            &&& trim(l.take(k.len() as int)) == k
            &&& l.skip(k.len() as int + 1) == seq![' '] + rest
        }),
{
    let l = k + seq![':', ' '] + rest;
    let m: int = k.len() as int;
    assert(l[0] == k[0]);
    lemma_find_char_from(l, ':', 0);
    let f = find_char_from(l, ':', 0);
    assert(l[m] == ':');
    assert(f == m) by {
        if f < m {
            assert(l[f] == k[f]);
        }
    }
    assert(l.take(m) =~= k);
    assert(!is_ws(k[0]) && !is_ws(k.last()));
    lemma_trim_id(k);
    assert(l.skip(m + 1) =~= seq![' '] + rest);
}

/// A line keyed by a managed word declares no property.
proof fn lemma_managed_line(w: Seq<char>, rest: Seq<char>)
    requires
        w == seq!['t', 'i', 't', 'l', 'e'] || w == seq!['t', 'a', 'g', 's'] || w == seq![
            'l',
            'o',
            'c',
            'k',
            'e',
            'd',
        ],
    ensures
        line_prop(w + seq![':', ' '] + rest) is None,
{
    assert forall|j: int| 0 <= j < w.len() implies w[j] != ':' && !is_ws(#[trigger] w[j]) by {}
    lemma_key_colon_line(w, rest);
    assert(eq_ci(w, w));
    assert(is_managed(w));
}

/// A property line the writer emits declares that property.
proof fn lemma_prop_line_reads(kv: (Seq<char>, Seq<char>))
    requires
        prop_key_ok(kv.0),
        !is_managed(kv.0),
        kv.1.len() > 0,
    ensures
        line_prop(prop_line(kv)) == Some(kv),
{
    let k = kv.0;
    assert forall|j: int| 0 <= j < k.len() implies k[j] != ':' && !is_ws(#[trigger] k[j]) by {
        if j > 0 {
            assert(crate::text::is_ascii_alnum(k[j]) || k[j] == '_' || k[j] == '-');
        }
    }
    lemma_key_colon_line(k, yaml_text(kv.1));
    lemma_scalar_after_space(yaml_text(kv.1));
    lemma_yaml_round_trip(kv.1);
}

/// The properties of the first `n` frontmatter lines, when the lines before `m` declare none
/// and the lines from `m` declare the distinct properties `cp` in order.
proof fn lemma_props_prefix(fm: Seq<char>, ls: Seq<Seq<char>>, m: int, cp: Seq<(Seq<char>, Seq<char>)>, n: int)
    requires
        fm_line_count(fm) == ls.len(),
        forall|i: int| 0 <= i < ls.len() ==> fm_line(fm, i) == #[trigger] ls[i],
        0 <= m,
        m + cp.len() == ls.len(),
        forall|i: int| 0 <= i < m ==> line_prop(#[trigger] ls[i]) is None,
        forall|i: int| 0 <= i < cp.len() ==> line_prop(ls[m + i]) == Some(#[trigger] cp[i]),
        props_readable(cp),
        0 <= n <= ls.len(),
    ensures
        props_upto(fm, n) == if n <= m {
            Seq::<(Seq<char>, Seq<char>)>::empty()
        } else {
            cp.take(n - m)
        },
    decreases n,
{
    if n > 0 {
        lemma_props_prefix(fm, ls, m, cp, n - 1);
        let acc = props_upto(fm, n - 1);
        assert(fm_line(fm, n - 1) == ls[n - 1]);
        if n - 1 < m {
            assert(line_prop(ls[n - 1]) is None);
        } else {
            let q = n - 1 - m;
            assert(line_prop(ls[m + q]) == Some(cp[q]));
            assert(ls[m + q] == ls[n - 1]);
            assert(!has_key(acc, cp[q].0)) by {
                assert forall|j: int| 0 <= j < acc.len() implies !eq_ci(#[trigger] acc[j].0, cp[q].0) by {
                    assert(acc[j] == cp[j]);
                    assert(!eq_ci(cp[j].0, cp[q].0));
                }
            }
            assert(acc.push(cp[q]) =~= cp.take(q + 1));
        }
    }
}

/// Which of the writer's lines declare properties: none of the first `m`, and the rest each
/// its property, in order.
proof fn lemma_writer_prop_lines(title: Option<Seq<char>>, tags: Seq<Seq<char>>, locked: bool, props: Seq<(Seq<char>, Seq<char>)>)
    requires
        props_readable(clean_props(props)),
    ensures
        ({
            let ls = writer_lines(title, tags, locked, props);
            let cp = clean_props(props);
            let m = title_count(title) + tags_count(tags) + if locked { 1int } else { 0int };
            &&& ls.len() == m + cp.len()
            &&& forall|i: int| 0 <= i < m ==> line_prop(#[trigger] ls[i]) is None
            &&& forall|i: int| 0 <= i < cp.len() ==> line_prop(ls[m + i]) == Some(#[trigger] cp[i])
        }),
{
    let ls = writer_lines(title, tags, locked, props);
    let ct = clean_tags(tags);
    let t = written_title(title);
    let cp = clean_props(props);
    let a: Seq<Seq<char>> = if t.len() > 0 { seq![title_line(t)] } else { seq![] };
    let b: Seq<Seq<char>> = if ct.len() > 0 { seq![tags_line(ct)] } else { seq![] };
    let c: Seq<Seq<char>> = if locked { seq![locked_line()] } else { seq![] };
    let d = prop_line_list(cp);
    assert(ls == a + b + c + d);
    lemma_prop_line_list(cp);
    lemma_clean_props_keys(props);
    let m = (a.len() + b.len() + c.len()) as int;
    if t.len() > 0 {
        assert(title_line(t) =~= seq!['t', 'i', 't', 'l', 'e'] + seq![':', ' '] + yaml_text(t));
        lemma_managed_line(seq!['t', 'i', 't', 'l', 'e'], yaml_text(t));
    }
    if ct.len() > 0 {
        let r = seq!['['] + join_comma(ct) + seq![']'];
        assert(tags_line(ct) =~= seq!['t', 'a', 'g', 's'] + seq![':', ' '] + r);
        lemma_managed_line(seq!['t', 'a', 'g', 's'], r);
    }
    if locked {
        let w = seq!['l', 'o', 'c', 'k', 'e', 'd'];
        let r = seq!['t', 'r', 'u', 'e'];
        assert(locked_line() =~= w + seq![':', ' '] + r);
        lemma_managed_line(w, r);
    }
    assert forall|i: int| 0 <= i < m implies line_prop(#[trigger] ls[i]) is None by {
        if i < a.len() {
            assert(ls[i] == title_line(t));
        } else if i < a.len() + b.len() {
            assert(ls[i] == tags_line(ct));
        } else {
            assert(ls[i] == locked_line());
        }
    }
    assert forall|i: int| 0 <= i < cp.len() implies line_prop(ls[m + i]) == Some(#[trigger] cp[i]) by {
        assert(ls[m + i] == d[i]);
        lemma_prop_line_reads(cp[i]);
    }
}

/// The properties the writer emits read back as written (keys trimmed, ill-formed and managed
/// keys dropped), whenever no value is empty and the keys differ ignoring ASCII case.
pub proof fn lemma_written_props_read_back(
    title: Option<Seq<char>>,
    tags: Seq<Seq<char>>,
    locked: bool,
    props: Seq<(Seq<char>, Seq<char>)>,
    body: Seq<char>,
)
    requires
        has_frontmatter(title, tags, locked, props),
        forall|i: int| 0 <= i < tags.len() ==> no_newline(#[trigger] tags[i]),
        props_readable(clean_props(props)),
    ensures
        file_props(written_file(title, tags, locked, props, body)) == clean_props(props),
{
    lemma_lines_of_writer(title, tags, locked, props, body);
    lemma_writer_prop_lines(title, tags, locked, props);
    let ls = writer_lines(title, tags, locked, props);
    let fm = joined(ls);
    let cp = clean_props(props);
    let m = title_count(title) + tags_count(tags) + if locked { 1int } else { 0int };
    assert forall|i: int| 0 <= i < ls.len() implies fm_line(fm, i) == #[trigger] ls[i] by {}
    lemma_props_prefix(fm, ls, m, cp, ls.len() as int);
    assert(cp.take(cp.len() as int) =~= cp);
    if cp.len() == 0 {
        assert(props_upto(fm, ls.len() as int) =~= cp);
    }
}

// ---------------------------------------------------------------------------------------------
// The whole block file.
// ---------------------------------------------------------------------------------------------

/// A tag the writer and reader keep as it is: trimmed, non-empty, on one line, and free of
/// the list punctuation `,`, `[`, `]` and of quotes.
pub open spec fn plain_tag(t: Seq<char>) -> bool {
    &&& trim(t) == t
    &&& t.len() > 0
    &&& forall|j: int| 0 <= j < t.len() ==> {
        let c = #[trigger] t[j];
        c != '\n' && c != ',' && c != '[' && c != ']' && c != '"' && c != '\''
    }
}

/// Properties the writer and reader keep as they are: trimmed, well-formed, unmanaged keys
/// that differ ignoring ASCII case, and non-empty values.
pub open spec fn plain_props(ps: Seq<(Seq<char>, Seq<char>)>) -> bool {
    &&& forall|i: int|
        0 <= i < ps.len() ==> {
            let p = #[trigger] ps[i];
            trim(p.0) == p.0 && prop_key_ok(p.0) && !is_managed(p.0) && p.1.len() > 0
        }
    &&& forall|i: int, j: int| 0 <= i < j < ps.len() ==> !eq_ci(#[trigger] ps[i].0, #[trigger] ps[j].0)
}

proof fn lemma_plain_tags_clean(tags: Seq<Seq<char>>)
    requires
        forall|i: int| 0 <= i < tags.len() ==> plain_tag(#[trigger] tags[i]),
    ensures
        clean_tags(tags) == tags,
    decreases tags.len(),
{
    if tags.len() > 0 {
        let d = tags.drop_last();
        assert forall|i: int| 0 <= i < d.len() implies plain_tag(#[trigger] d[i]) by {
            assert(d[i] == tags[i]);
        }
        lemma_plain_tags_clean(d);
        assert(plain_tag(tags[tags.len() - 1]));
        assert(clean_tags(tags) =~= d.push(tags.last()));
        assert(d.push(tags.last()) =~= tags);
    }
}

proof fn lemma_plain_props_clean(ps: Seq<(Seq<char>, Seq<char>)>)
    requires
        forall|i: int|
            0 <= i < ps.len() ==> {
                let p = #[trigger] ps[i];
                trim(p.0) == p.0 && prop_key_ok(p.0) && !is_managed(p.0)
            },
    ensures
        clean_props(ps) == ps,
    decreases ps.len(),
{
    if ps.len() > 0 {
        let d = ps.drop_last();
        assert forall|i: int| 0 <= i < d.len() implies {
            let p = #[trigger] d[i];
            trim(p.0) == p.0 && prop_key_ok(p.0) && !is_managed(p.0)
        } by {
            assert(d[i] == ps[i]);
        }
        lemma_plain_props_clean(d);
        let l = ps[ps.len() - 1];
        assert(trim(l.0) == l.0 && prop_key_ok(l.0) && !is_managed(l.0));
        assert(clean_props(ps) =~= d.push(l));
        assert(d.push(l) =~= ps);
    }
}

/// A block file written from a title, tags, lock flag, properties and body reads back as
/// exactly those, whenever each can be carried as it is: the title (if any) trimmed and
/// non-empty, each tag a [`plain_tag`], the properties [`plain_props`], and a body that neither
/// starts with a line break nor opens with a frontmatter fence.
pub proof fn lemma_block_file_round_trip(
    title: Option<Seq<char>>,
    tags: Seq<Seq<char>>,
    locked: bool,
    props: Seq<(Seq<char>, Seq<char>)>,
    body: Seq<char>,
)
    requires
        title matches Some(t) ==> trim(t) == t && t.len() > 0,
        forall|i: int| 0 <= i < tags.len() ==> plain_tag(#[trigger] tags[i]),
        plain_props(props),
        body.len() == 0 || body[0] != '\n',
        !opens_frontmatter(body),
    ensures
        ({
            let w = written_file(title, tags, locked, props, body);
            &&& file_title(w) == title
            &&& file_fm_tags(w) == tags
            &&& file_locked(w) == locked
            &&& file_props(w) == props
            &&& body_of(w) == body
        }),
{
    lemma_plain_tags_clean(tags);
    lemma_plain_props_clean(props);
    let w = written_file(title, tags, locked, props, body);
    assert(trim_start_newlines(body) == body);
    if has_frontmatter(title, tags, locked, props) {
        assert forall|i: int| 0 <= i < tags.len() implies no_newline(#[trigger] tags[i]) by {
            assert(plain_tag(tags[i]));
            assert forall|j: int| 0 <= j < tags[i].len() implies tags[i][j] != '\n' by {
                let c = tags[i][j];
            }
        }
        assert(flow_list_safe(tags)) by {
            assert forall|i: int| 0 <= i < tags.len() implies flow_safe(#[trigger] tags[i]) by {
                assert(plain_tag(tags[i]));
                let t = tags[i];
                assert forall|j: int| 0 <= j < t.len() implies t[j] != ',' by {
                    let c = t[j];
                }
                let c0 = t[0];
                let cl = t[t.len() - 1];
            }
            if tags.len() > 0 {
                assert(plain_tag(tags[0]));
                let c0 = tags[0][0];
                let t = tags[tags.len() - 1];
                assert(plain_tag(t));
                let cl = t[t.len() - 1];
            }
        }
        lemma_written_block_reads_back(title, tags, locked, props, body);
        lemma_written_tags_read_back(title, tags, locked, props, body);
        lemma_written_props_read_back(title, tags, locked, props, body);
    } else {
        assert(title is None);
        assert(tags.len() == 0);
        assert(props.len() == 0);
        assert(w == body);
        lemma_plain_body_reads_back(body);
    }
}

// ---------------------------------------------------------------------------------------------
// A single scalar `tags:` value.
// ---------------------------------------------------------------------------------------------

proof fn lemma_trim_unpadded(s: Seq<char>)
    requires
        s.len() > 0,
        !is_ws(s[0]),
        !is_ws(s.last()),
    ensures
        trim(s) == s,
{
    assert(trim_start(s) == s);
    assert(trim_end(s) == s);
}

/// A frontmatter line `tags: X` whose value `X` is a single scalar (on one line, not a `[..]`
/// list) gives the block exactly one managed tag: `X` trimmed and stripped of surrounding
/// quotes; a plain word is kept as it is.
pub proof fn lemma_scalar_tags_line(x: Seq<char>, b: Seq<char>)
    requires
        x.len() > 0,
        !is_ws(x[0]),
        !is_ws(x.last()),
        x[0] != '[',
        forall|k: int| 0 <= k < x.len() ==> #[trigger] x[k] != '\n',
        clean_item(x).len() > 0,
    ensures
        file_fm_tags(framed(seq![kw_tags() + seq![' '] + x], b)) == seq![clean_item(x)],
        (forall|k: int| 0 <= k < x.len() ==> !is_quote(#[trigger] x[k])) ==> file_fm_tags(
            framed(seq![kw_tags() + seq![' '] + x], b),
        ) == seq![x],
{
    let l = kw_tags() + seq![' '] + x;
    let ls = seq![l];
    assert(l.last() == x.last());
    assert(l[0] == 't');
    assert forall|j: int| 0 <= j < l.len() implies l[j] != '\n' by {
        if j >= 6 {
            assert(l[j] == x[j - 6]);
        }
    }
    assert(l != dashes3()) by {
        assert(l.len() != 3);
    }
    assert(plain_line(l));
    assert forall|i: int| 0 <= i < ls.len() implies plain_line(#[trigger] ls[i]) by {
        assert(ls[i] == l);
    }
    lemma_framed_split(ls, b);
    lemma_joined_lines(ls);
    let fm = joined(ls);
    assert(fm_line(fm, 0) == l);
    assert(fm_line_count(fm) == 1);
    lemma_trim_unpadded(l);
    assert(l.take(5) =~= kw_tags());
    assert(starts_with(l, kw_tags()));
    let sp = l.skip(5);
    assert(sp =~= seq![' '] + x);
    assert(sp.drop_first() =~= x);
    assert(trim_start(sp) == trim_start(x));
    assert(trim_start(x) == x);
    lemma_trim_unpadded(x);
    assert(trim(sp) == x);
    assert(tags_from(fm, 1) == Seq::<Seq<char>>::empty());
    assert(tags_from(fm, 0) == seq![clean_item(x)]);
    if forall|k: int| 0 <= k < x.len() ==> !is_quote(#[trigger] x[k]) {
        assert(!is_quote(x[0]));
        assert(!is_quote(x[x.len() - 1]));
        assert(trim_start_quotes(x) == x);
        assert(trim_end_quotes(x) == x);
        assert(clean_item(x) == x);
    }
}

// ---------------------------------------------------------------------------------------------
// A `tags:` block list.
// ---------------------------------------------------------------------------------------------

/// A tag value written as it is: not empty, not padded, with no line break or quote.
pub open spec fn bare_tag(x: Seq<char>) -> bool {
    &&& x.len() > 0
    &&& !is_ws(x[0])
    &&& !is_ws(x.last())
    &&& forall|k: int| 0 <= k < x.len() ==> #[trigger] x[k] != '\n' && !is_quote(x[k])
}

/// The list entry line `- x`.
pub open spec fn item_line(x: Seq<char>) -> Seq<char> {
    seq!['-', ' '] + x
}

proof fn lemma_bare_tag_clean(x: Seq<char>)
    requires
        bare_tag(x),
    ensures
        trim(x) == x,
        clean_item(x) == x,
{
    lemma_trim_unpadded(x);
    assert(!is_quote(x[0]));
    assert(!is_quote(x[x.len() - 1]));
    assert(trim_start_quotes(x) == x);
    assert(trim_end_quotes(x) == x);
}

proof fn lemma_item_line(x: Seq<char>)
    requires
        bare_tag(x),
    ensures
        plain_line(item_line(x)),
        trim(item_line(x)) == item_line(x),
        trim(item_line(x)).skip(1) == seq![' '] + x,
        clean_item(trim(item_line(x)).skip(1)) == x,
{
    let l = item_line(x);
    assert(l.last() == x.last());
    assert forall|j: int| 0 <= j < l.len() implies l[j] != '\n' by {
        if j >= 2 {
            assert(l[j] == x[j - 2]);
        }
    }
    assert(l != dashes3()) by {
        if l.len() == 3 {
            assert(l[2] == x[0]);
            assert(!is_ws('-'));
        }
    }
    lemma_trim_unpadded(l);
    assert(l.skip(1) =~= seq![' '] + x);
    let sp = seq![' '] + x;
    assert(sp.drop_first() =~= x);
    lemma_bare_tag_clean(x);
    assert(trim_start(sp) == trim_start(x));
    assert(trim_start(x) == x);
    assert(trim(sp) == x);
    assert(trim_start_quotes(trim(sp)) == x);
}

proof fn lemma_block_items_of(xs: Seq<Seq<char>>, fm: Seq<char>, j: int)
    requires
        1 <= j <= xs.len() + 1,
        fm_line_count(fm) == xs.len() + 1,
        forall|i: int| 0 <= i < xs.len() ==> bare_tag(#[trigger] xs[i]),
        forall|i: int| 0 <= i < xs.len() ==> fm_line(fm, i + 1) == item_line(#[trigger] xs[i]),
    ensures
        block_items(fm, j) == (xs.subrange(j - 1, xs.len() as int), xs.len() + 1int),
    decreases xs.len() + 1 - j,
{
    if j <= xs.len() {
        let x = xs[j - 1];
        assert(fm_line(fm, j) == item_line(x));
        lemma_item_line(x);
        assert(item_line(x)[0] == '-');
        assert(is_item_line(fm, j));
        lemma_block_items_of(xs, fm, j + 1);
        assert(seq![x] + xs.subrange(j, xs.len() as int) =~= xs.subrange(j - 1, xs.len() as int));
    } else {
        assert(xs.subrange(j - 1, xs.len() as int) =~= Seq::<Seq<char>>::empty());
    }
}

/// A frontmatter whose only entry is a `tags:` key followed by a block list of `- x` lines gives
/// the block exactly those tags, in order.
pub proof fn lemma_block_list_tags(xs: Seq<Seq<char>>, b: Seq<char>)
    requires
        forall|i: int| 0 <= i < xs.len() ==> bare_tag(#[trigger] xs[i]),
    ensures
        file_fm_tags(framed(seq![kw_tags()] + xs.map_values(|x: Seq<char>| item_line(x)), b)) == xs,
{
    let items = xs.map_values(|x: Seq<char>| item_line(x));
    let ls = seq![kw_tags()] + items;
    assert forall|i: int| 0 <= i < ls.len() implies plain_line(#[trigger] ls[i]) by {
        if i == 0 {
            assert(ls[0] == kw_tags());
            assert(kw_tags() != dashes3());
        } else {
            assert(ls[i] == item_line(xs[i - 1]));
            lemma_item_line(xs[i - 1]);
        }
    }
    lemma_framed_split(ls, b);
    lemma_joined_lines(ls);
    let fm = joined(ls);
    assert(fm_line(fm, 0) == ls[0]);
    assert(fm_line_count(fm) == xs.len() + 1);
    assert forall|i: int| 0 <= i < xs.len() implies fm_line(fm, i + 1) == item_line(#[trigger] xs[i]) by {
        assert(ls[i + 1] == item_line(xs[i]));
    }
    let t = kw_tags();
    lemma_trim_unpadded(t);
    assert(t.take(5) =~= kw_tags());
    assert(starts_with(t, kw_tags()));
    assert(t.skip(5) =~= Seq::<char>::empty());
    assert(trim(t.skip(5)) =~= Seq::<char>::empty());
    lemma_block_items_of(xs, fm, 1);
    assert(xs.subrange(0, xs.len() as int) =~= xs);
    assert(tags_from(fm, xs.len() + 1int) == Seq::<Seq<char>>::empty());
    assert(tags_from(fm, 0) == xs + Seq::<Seq<char>>::empty());
    assert(xs + Seq::<Seq<char>>::empty() =~= xs);
}

// ---------------------------------------------------------------------------------------------
// `locked:` and `title:` lines.
// ---------------------------------------------------------------------------------------------

/// The line `kw` + ` ` + `x`, for a keyword `kw` that is a plain lower-case word with a colon.
pub open spec fn key_line(kw: Seq<char>, x: Seq<char>) -> Seq<char> {
    kw + seq![' '] + x
}

proof fn lemma_key_line(kw: Seq<char>, x: Seq<char>)
    requires
        kw.len() > 0,
        !is_ws(kw[0]),
        kw != dashes3(),
        forall|k: int| 0 <= k < kw.len() ==> #[trigger] kw[k] != '\n',
        bare_tag(x),
    ensures
        plain_line(key_line(kw, x)),
        trim(key_line(kw, x)) == key_line(kw, x),
        starts_with(key_line(kw, x), kw),
        key_line(kw, x).skip(kw.len() as int) == seq![' '] + x,
        scalar_value(seq![' '] + x) == x,
{
    let l = key_line(kw, x);
    assert(l.last() == x.last());
    assert(l[0] == kw[0]);
    assert forall|j: int| 0 <= j < l.len() implies l[j] != '\n' by {
        if j < kw.len() {
            assert(l[j] == kw[j]);
        } else if j > kw.len() {
            assert(l[j] == x[j - kw.len() - 1]);
        }
    }
    assert(l != dashes3()) by {
        if l.len() == 3 {
            assert(kw.len() == 1);
            assert(l[1] == ' ');
        }
    }
    lemma_trim_unpadded(l);
    assert(l.take(kw.len() as int) =~= kw);
    assert(l.skip(kw.len() as int) =~= seq![' '] + x);
    let sp = seq![' '] + x;
    assert(sp.drop_first() =~= x);
    lemma_bare_tag_clean(x);
    assert(trim_start(sp) == trim_start(x));
    assert(trim_start(x) == x);
    assert(trim(sp) == x);
    assert(!is_quote(x[0]));
}

/// A frontmatter whose only line is `locked: V` locks the block exactly when `V`, lower-cased,
/// is `true`, `yes`, `on` or `1`.
pub proof fn lemma_locked_line(v: Seq<char>, b: Seq<char>)
    requires
        bare_tag(v),
    ensures
        file_locked(framed(seq![key_line(kw_locked(), v)], b)) == (lower_all(v) == seq!['t', 'r', 'u', 'e']
            || lower_all(v) == seq!['y', 'e', 's'] || lower_all(v) == seq!['o', 'n'] || lower_all(v)
            == seq!['1']),
{
    let l = key_line(kw_locked(), v);
    let ls = seq![l];
    assert(kw_locked() != dashes3()) by {
        assert(kw_locked().len() != 3);
    }
    lemma_key_line(kw_locked(), v);
    assert forall|i: int| 0 <= i < ls.len() implies plain_line(#[trigger] ls[i]) by {
        assert(ls[i] == l);
    }
    lemma_framed_split(ls, b);
    lemma_joined_lines(ls);
    let fm = joined(ls);
    assert(fm_line(fm, 0) == l);
    assert(fm_line_count(fm) == 1);
    assert(locked_from(fm, 0) == truthy(lower_all(v)));
}

/// With several `title:` lines, the first one with a value gives the title.
pub proof fn lemma_first_title_wins(x: Seq<char>, y: Seq<char>, b: Seq<char>)
    requires
        bare_tag(x),
        bare_tag(y),
    ensures
        file_title(framed(seq![key_line(kw_title(), x), key_line(kw_title(), y)], b)) == Some(x),
{
    let l0 = key_line(kw_title(), x);
    let l1 = key_line(kw_title(), y);
    let ls = seq![l0, l1];
    assert(kw_title() != dashes3()) by {
        assert(kw_title().len() != 3);
    }
    lemma_key_line(kw_title(), x);
    lemma_key_line(kw_title(), y);
    assert forall|i: int| 0 <= i < ls.len() implies plain_line(#[trigger] ls[i]) by {
        if i == 0 {
            assert(ls[i] == l0);
        } else {
            assert(ls[i] == l1);
        }
    }
    lemma_framed_split(ls, b);
    lemma_joined_lines(ls);
    let fm = joined(ls);
    assert(fm_line(fm, 0) == l0);
    assert(title_from(fm, 0) == Some(x));
    lemma_bare_tag_clean(x);
}

/// Splitting text into lines undoes writing each line followed by a line break: for lines that
/// are not empty, hold no break, do not end in `\r` and are not `---`, the lines of their
/// joined text are those lines.
pub proof fn lemma_lines_of_joined(ls: Seq<Seq<char>>)
    requires
        forall|i: int| 0 <= i < ls.len() ==> plain_line(#[trigger] ls[i]),
    ensures
        lines(joined(ls)) == ls,
{
    lemma_joined_lines(ls);
    let j = joined(ls);
    assert forall|i: int| 0 <= i < ls.len() implies #[trigger] lines(j)[i] == ls[i] by {
        assert(fm_line(j, i) == ls[i]);
    }
    assert(lines(j) =~= ls);
}

} // verus!
