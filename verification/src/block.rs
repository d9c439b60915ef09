//! The in-memory block model.
//!
//! A [`Block`] *is* a file (`blocks/<ulid>.md`): the id is the filename stem, the content is
//! the file body, and the directives inside that body define its edges — `![[target]]` marks a
//! child (transclusion) and `[[target]]` a plain reference.

use vstd::prelude::*;
use crate::id::BlockId;
use crate::link::{extract_references, label_of, references_of, refs_view, RefSpec, Reference};
use crate::text::{
    chars_of, eq_ci, eq_ignore_case, line_content_end, next_line, push_all, push_range, push_str,
    string_from, str_eq, trim, trim_bounds,
};

verus! {

/// A single block: one file in the vault.
#[derive(Debug, PartialEq, Eq)]
pub struct Block {
    /// Stable identity (the filename stem).
    pub id: BlockId,
    /// Optional human title (from frontmatter `title:`).
    pub title: Option<String>,
    /// All tags: frontmatter `tags:` then inline `#tag` mentions, without repeats.
    pub tags: Vec<String>,
    /// The managed tags — those declared in frontmatter `tags:`.
    pub fm_tags: Vec<String>,
    /// Fenced-code languages appearing in the body.
    pub langs: Vec<String>,
    /// Human-only flag (frontmatter `locked: true`).
    pub locked: bool,
    /// Arbitrary scalar frontmatter properties, in file order.
    pub props: Vec<(String, String)>,
    /// The Markdown body (everything after frontmatter), verbatim.
    pub body: String,
}

pub open spec fn strs_view(v: Seq<String>) -> Seq<Seq<char>> {
    v.map_values(|s: String| s@)
}

pub open spec fn props_view(v: Seq<(String, String)>) -> Seq<(Seq<char>, Seq<char>)> {
    v.map_values(|p: (String, String)| (p.0@, p.1@))
}

pub open spec fn opt_str_view(o: Option<String>) -> Option<Seq<char>> {
    match o {
        Some(s) => Some(s@),
        None => None,
    }
}

/// Copy a vector of strings.
pub fn clone_strings(v: &Vec<String>) -> (r: Vec<String>)
    ensures
        strs_view(r@) == strs_view(v@),
{
    let mut r: Vec<String> = Vec::new();
    let mut i: usize = 0;
    while i < v.len()
        invariant
            i <= v@.len(),
            r@.len() == i,
            forall|k: int| 0 <= k < i ==> (#[trigger] r@[k])@ == v@[k]@,
        decreases v.len() - i,
    {
        let c = v[i].clone();
        r.push(c);
        i += 1;
    }
    assert(strs_view(r@) =~= strs_view(v@));
    r
}

/// Copy a vector of key/value pairs.
pub fn clone_props(v: &Vec<(String, String)>) -> (r: Vec<(String, String)>)
    ensures
        props_view(r@) == props_view(v@),
{
    let mut r: Vec<(String, String)> = Vec::new();
    let mut i: usize = 0;
    while i < v.len()
        invariant
            i <= v@.len(),
            r@.len() == i,
            forall|k: int| 0 <= k < i ==> (#[trigger] r@[k]).0@ == v@[k].0@ && r@[k].1@ == v@[k].1@,
        decreases v.len() - i,
    {
        let (k, x) = &v[i];
        let kc = k.clone();
        let xc = x.clone();
        r.push((kc, xc));
        i += 1;
    }
    assert(props_view(r@) =~= props_view(v@));
    r
}

/// Copy an optional string.
pub fn clone_opt(o: &Option<String>) -> (r: Option<String>)
    ensures
        opt_str_view(r) == opt_str_view(*o),
{
    match o {
        Some(s) => Some(s.clone()),
        None => None,
    }
}

// ---------------------------------------------------------------------------------------------
// Derived views.
// ---------------------------------------------------------------------------------------------

/// The targets of the directives in `refs` whose `embed` flag is `embed`, in order.
pub open spec fn targets_where(refs: Seq<RefSpec>, embed: bool) -> Seq<Seq<char>>
    decreases refs.len(),
{
    if refs.len() == 0 {
        seq![]
    } else {
        let init = targets_where(refs.drop_last(), embed);
        if refs.last().embed == embed {
            init.push(refs.last().target)
        } else {
            init
        }
    }
}

/// `s` without leading `#` characters.
pub open spec fn trim_start_hashes(s: Seq<char>) -> Seq<char>
    decreases s.len(),
{
    if s.len() > 0 && s[0] == '#' {
        trim_start_hashes(s.drop_first())
    } else {
        s
    }
}

/// A line reduced to its heading text: trimmed, leading `#`s dropped, trimmed again.
pub open spec fn heading_stripped(l: Seq<char>) -> Seq<char> {
    trim(trim_start_hashes(trim(l)))
}

/// The first line of `s[i..]` whose heading text is non-empty, reduced to that text.
pub open spec fn first_text_line(s: Seq<char>, i: int) -> Option<Seq<char>>
    decreases s.len() + 1 - i,
    via first_text_line_decreases
{
    if i < 0 || i >= s.len() {
        None
    } else {
        let t = heading_stripped(s.subrange(i, line_content_end(s, i)));
        if t.len() > 0 {
            Some(t)
        } else {
            first_text_line(s, crate::text::find_char_from(s, '\n', i) + 1)
        }
    }
}

#[via_fn]
proof fn first_text_line_decreases(s: Seq<char>, i: int) {
    if 0 <= i < s.len() {
        crate::text::lemma_find_char_from(s, '\n', i);
    }
}

/// `s` without the inline-markup characters `*`, `_` and `` ` ``.
pub open spec fn strip_markup(s: Seq<char>) -> Seq<char>
    decreases s.len(),
{
    if s.len() == 0 {
        s
    } else {
        let init = strip_markup(s.drop_last());
        let c = s.last();
        if c == '*' || c == '_' || c == '`' {
            init
        } else {
            init.push(c)
        }
    }
}

/// At most `n` characters of `s`, with `…` appended when something was cut.
pub open spec fn truncate_with_ellipsis(s: Seq<char>, n: int) -> Seq<char> {
    if s.len() > n {
        s.take(n).push('…')
    } else {
        s
    }
}

/// The display title of a block with the given title, body and id.
pub open spec fn display_title_of(title: Option<Seq<char>>, body: Seq<char>, id: Seq<char>) -> Seq<
    char,
> {
    if title is Some && trim(title->0).len() > 0 {
        trim(title->0)
    } else {
        match first_text_line(body, 0) {
            Some(t) => truncate_with_ellipsis(strip_markup(t), 80),
            None => id,
        }
    }
}

/// `s` with every directive replaced by its label, given the directives of `s` from `refs`
/// onwards and the index `cursor` where the untouched text resumes.
pub open spec fn splice_labels(s: Seq<char>, refs: Seq<RefSpec>, cursor: int) -> Seq<char>
    decreases refs.len(),
{
    if refs.len() == 0 {
        s.subrange(cursor, s.len() as int)
    } else {
        s.subrange(cursor, refs[0].start) + label_of(refs[0]) + splice_labels(
            s,
            refs.drop_first(),
            refs[0].end,
        )
    }
}

/// The plain text of a body: every directive reduced to its label.
pub open spec fn directives_text(s: Seq<char>) -> Seq<char> {
    splice_labels(s, references_of(s), 0)
}

/// The text used for search context: the trimmed title (when non-blank), a blank line, then
/// the plain body.
pub open spec fn contextual_text_of(title: Option<Seq<char>>, body: Seq<char>) -> Seq<char> {
    if title is Some && trim(title->0).len() > 0 {
        trim(title->0) + seq!['\n', '\n'] + directives_text(body)
    } else {
        directives_text(body)
    }
}

/// `s` with later repeats removed (first occurrences kept, in order).
pub open spec fn dedup(s: Seq<Seq<char>>) -> Seq<Seq<char>>
    decreases s.len(),
{
    if s.len() == 0 {
        s
    } else {
        let init = dedup(s.drop_last());
        if init.contains(s.last()) {
            init
        } else {
            init.push(s.last())
        }
    }
}

/// The value of the first property whose key equals `key` ignoring ASCII case.
pub open spec fn prop_lookup(props: Seq<(Seq<char>, Seq<char>)>, key: Seq<char>) -> Option<
    Seq<char>,
>
    decreases props.len(),
{
    if props.len() == 0 {
        None
    } else if eq_ci(props[0].0, key) {
        Some(props[0].1)
    } else {
        prop_lookup(props.drop_first(), key)
    }
}

/// The positions of the directives found by the scanner are ordered and within bounds.
pub open spec fn refs_well_placed(s: Seq<char>, refs: Seq<RefSpec>, from: int) -> bool {
    &&& forall|k: int| 0 <= k < refs.len() ==> from <= #[trigger] refs[k].start < refs[k].end <= s.len()
    &&& forall|k: int| 0 <= k < refs.len() - 1 ==> #[trigger] refs[k].end <= refs[k + 1].start
}

pub proof fn lemma_refs_from_placed(s: Seq<char>, mask: Seq<bool>, p: int)
    requires
        0 <= p,
    ensures
        refs_well_placed(s, crate::link::refs_from(s, mask, p), p),
    decreases s.len() - p,
{
    if p < s.len() {
        crate::link::lemma_directive_at(s, p);
        match crate::link::directive_at(s, p) {
            Some((_, end)) => {
                lemma_refs_from_placed(s, mask, end);
            },
            None => {
                lemma_refs_from_placed(s, mask, p + 1);
            },
        }
    }
}

pub proof fn lemma_references_placed(s: Seq<char>)
    ensures
        refs_well_placed(s, references_of(s), 0),
{
    lemma_refs_from_placed(s, crate::link::code_mask(s), 0);
}

/// Replace each directive of `s` by its label.
pub fn directives_to_text(s: &Vec<char>, refs: &Vec<Reference>) -> (r: Vec<char>)
    requires
        refs_view(refs@) == references_of(s@),
    ensures
        r@ == directives_text(s@),
{
    proof {
        lemma_references_placed(s@);
    }
    let ghost rs = refs_view(refs@);
    let mut out: Vec<char> = Vec::new();
    let mut cursor: usize = 0;
    let mut i: usize = 0;
    assert(rs.skip(0) =~= rs);
    while i < refs.len()
        invariant
            rs == refs_view(refs@),
            rs == references_of(s@),
            refs_well_placed(s@, rs, 0),
            i <= rs.len(),
            cursor <= s@.len(),
            i < rs.len() ==> cursor <= rs[i as int].start,
            i > 0 ==> cursor == rs[i - 1].end,
            i == 0 ==> cursor == 0,
            out@ + splice_labels(s@, rs.skip(i as int), cursor as int) == directives_text(s@),
        decreases refs.len() - i,
    {
        let r = &refs[i];
        let ghost before = out@;
        let ghost rest = rs.skip(i as int);
        assert(rest[0] == rs[i as int]);
        assert(rest.drop_first() =~= rs.skip(i + 1));
        push_range(&mut out, s, cursor, r.span.start);
        push_str(&mut out, r.label());
        let ghost tail = splice_labels(s@, rs.skip(i + 1), r.span.end as int);
        assert(out@ + tail =~= before + splice_labels(s@, rest, cursor as int));
        cursor = r.span.end;
        i += 1;
    }
    push_range(&mut out, s, cursor, s.len());
    out
}

impl Block {
    /// All directives in the body, in source order.
    pub fn references(&self) -> (r: Vec<Reference>)
        ensures
            refs_view(r@) == crate::link::in_bytes(self.body@, references_of(self.body@)),
    {
        extract_references(self.body.as_str())
    }

    /// The raw targets of the block's children (`![[...]]`), in order.
    pub fn child_targets(&self) -> (r: Vec<String>)
        ensures
            strs_view(r@) == targets_where(references_of(self.body@), true),
    {
        let refs = self.references();
        proof {
            lemma_targets_in_bytes(self.body@, references_of(self.body@), true);
        }
        targets_of(&refs, true)
    }

    /// The raw targets of the block's plain references (`[[...]]`), in order.
    pub fn reference_targets(&self) -> (r: Vec<String>)
        ensures
            strs_view(r@) == targets_where(references_of(self.body@), false),
    {
        let refs = self.references();
        proof {
            lemma_targets_in_bytes(self.body@, references_of(self.body@), false);
        }
        targets_of(&refs, false)
    }

    /// A short display title: the trimmed title when non-blank; else the first body line with
    /// text (heading markers and inline markup removed, cut to 80 characters with `…`); else
    /// the id.
    pub fn display_title(&self) -> (r: String)
        ensures
            r@ == display_title_of(opt_str_view(self.title), self.body@, self.id@),
    {
        display_title_for(&self.title, &self.body, &self.id)
    }

    /// The text used for search context: the title prepended to the plain-text body, with
    /// directives reduced to their labels.
    pub fn contextual_text(&self) -> (r: String)
        ensures
            r@ == contextual_text_of(opt_str_view(self.title), self.body@),
    {
        let body = chars_of(self.body.as_str());
        let refs = crate::link::references_in(&body);
        let plain = directives_to_text(&body, &refs);
        match &self.title {
            Some(t) => {
                let tv = chars_of(t.as_str());
                let (a, b) = trim_bounds(&tv, 0, tv.len());
                assert(tv@.subrange(0, tv@.len() as int) =~= tv@);
                if b > a {
                    let mut out: Vec<char> = Vec::new();
                    push_range(&mut out, &tv, a, b);
                    out.push('\n');
                    out.push('\n');
                    push_all(&mut out, &plain);
                    assert(out@ =~= trim(t@) + seq!['\n', '\n'] + plain@);
                    return string_from(&out);
                }
                string_from(&plain)
            },
            None => string_from(&plain),
        }
    }

    /// All tag names, without repeats, in first-seen order.
    pub fn tag_names(&self) -> (r: Vec<&str>)
        ensures
            r@.map_values(|s: &str| s@) == dedup(strs_view(self.tags@)),
    {
        let mut seen: Vec<&str> = Vec::new();
        let mut i: usize = 0;
        while i < self.tags.len()
            invariant
                i <= self.tags@.len(),
                seen@.map_values(|s: &str| s@) == dedup(strs_view(self.tags@.take(i as int))),
            decreases self.tags.len() - i,
        {
            let t = self.tags[i].as_str();
            let ghost sv = seen@.map_values(|s: &str| s@);
            assert(strs_view(self.tags@.take(i + 1)).drop_last() =~= strs_view(
                self.tags@.take(i as int),
            ));
            let mut found = false;
            let mut j: usize = 0;
            while j < seen.len()
                invariant
                    j <= seen@.len(),
                    i < self.tags@.len(),
                    sv == seen@.map_values(|s: &str| s@),
                    t@ == self.tags@[i as int]@,
                    found == (exists|k: int| 0 <= k < j && sv[k] == t@),
                decreases seen.len() - j,
            {
                assert(sv[j as int] == seen@[j as int]@);
                if str_eq(seen[j], t) {
                    found = true;
                }
                j += 1;
            }
            proof {
                if sv.contains(t@) {
                    let k = choose|k: int| 0 <= k < sv.len() && sv[k] == t@;
                }
            }
            if !found {
                seen.push(t);
                assert(seen@.map_values(|s: &str| s@) =~= sv.push(t@));
            }
            i += 1;
        }
        assert(self.tags@.take(i as int) =~= self.tags@);
        seen
    }

    /// The value of property `key` (compared ignoring ASCII case), if present.
    pub fn prop(&self, key: &str) -> (r: Option<&str>)
        ensures
            match r {
                Some(v) => prop_lookup(props_view(self.props@), key@) == Some(v@),
                None => prop_lookup(props_view(self.props@), key@) is None,
            },
    {
        prop_in(&self.props, key)
    }
}

/// The value of the first property whose key equals `key` ignoring ASCII case.
pub fn prop_in<'a>(props: &'a Vec<(String, String)>, key: &str) -> (r: Option<&'a str>)
    ensures
        match r {
            Some(v) => prop_lookup(props_view(props@), key@) == Some(v@),
            None => prop_lookup(props_view(props@), key@) is None,
        },
{
    let kv = chars_of(key);
    let mut i: usize = 0;
    assert(props@.skip(0) =~= props@);
    while i < props.len()
        invariant
            i <= props@.len(),
            kv@ == key@,
            prop_lookup(props_view(props@), key@) == prop_lookup(
                props_view(props@.skip(i as int)),
                key@,
            ),
        decreases props.len() - i,
    {
        let (k, v) = &props[i];
        let ghost rest = props_view(props@.skip(i as int));
        assert(rest[0] == (k@, v@));
        assert(rest.drop_first() =~= props_view(props@.skip(i + 1)));
        let kc = chars_of(k.as_str());
        if eq_ignore_case(&kc, &kv) {
            return Some(v.as_str());
        }
        i += 1;
    }
    None
}

/// Directive targets do not depend on how spans are counted.
proof fn lemma_targets_in_bytes(s: Seq<char>, rs: Seq<RefSpec>, embed: bool)
    ensures
        targets_where(crate::link::in_bytes(s, rs), embed) == targets_where(rs, embed),
    decreases rs.len(),
{
    if rs.len() > 0 {
        assert(crate::link::in_bytes(s, rs).drop_last() =~= crate::link::in_bytes(s, rs.drop_last()));
        lemma_targets_in_bytes(s, rs.drop_last(), embed);
    }
}

/// The targets of the directives in `refs` with the given `embed` flag, in order.
pub fn targets_of(refs: &Vec<Reference>, embed: bool) -> (r: Vec<String>)
    ensures
        strs_view(r@) == targets_where(refs_view(refs@), embed),
{
    let mut out: Vec<String> = Vec::new();
    let mut i: usize = 0;
    while i < refs.len()
        invariant
            i <= refs@.len(),
            strs_view(out@) == targets_where(refs_view(refs@.take(i as int)), embed),
        decreases refs.len() - i,
    {
        assert(refs_view(refs@.take(i + 1)).drop_last() =~= refs_view(refs@.take(i as int)));
        if refs[i].embed == embed {
            out.push(refs[i].target.clone());
            assert(strs_view(out@) =~= targets_where(refs_view(refs@.take(i as int)), embed).push(
                refs@[i as int].target@,
            ));
        }
        i += 1;
    }
    assert(refs@.take(i as int) =~= refs@);
    out
}

/// The display title for a block with the given title, body and id.
pub fn display_title_for(title: &Option<String>, body: &String, id: &BlockId) -> (r: String)
    ensures
        r@ == display_title_of(opt_str_view(*title), body@, id@),
{
    if let Some(t) = title {
        let tv = chars_of(t.as_str());
        let (a, b) = trim_bounds(&tv, 0, tv.len());
        assert(tv@.subrange(0, tv@.len() as int) =~= tv@);
        if b > a {
            let mut out: Vec<char> = Vec::new();
            push_range(&mut out, &tv, a, b);
            assert(out@ =~= trim(t@));
            return string_from(&out);
        }
    }
    let s = chars_of(body.as_str());
    match first_text_line_exec(&s) {
        Some(line) => {
            let stripped = strip_markup_exec(&line);
            let cut = truncate_exec(&stripped, 80);
            string_from(&cut)
        },
        None => {
            let v = chars_of(id.as_str());
            string_from(&v)
        },
    }
}

/// The heading text of `s[lo..hi]` (see [`heading_stripped`]).
pub fn heading_text_of(s: &Vec<char>, lo: usize, hi: usize) -> (r: Vec<char>)
    requires
        lo <= hi <= s@.len(),
    ensures
        r@ == heading_stripped(s@.subrange(lo as int, hi as int)),
{
    let (a, b) = trim_bounds(s, lo, hi);
    let mut k = a;
    while k < b && s[k] == '#'
        invariant
            a <= k <= b,
            b <= s@.len(),
            trim_start_hashes(s@.subrange(a as int, b as int)) == trim_start_hashes(
                s@.subrange(k as int, b as int),
            ),
        decreases b - k,
    {
        assert(s@.subrange(k as int, b as int).drop_first() =~= s@.subrange(k + 1, b as int));
        k += 1;
    }
    let (c, d) = trim_bounds(s, k, b);
    crate::text::copy_range(s, c, d)
}

/// The first line of `s` with heading text (see [`first_text_line`]).
pub fn first_text_line_exec(s: &Vec<char>) -> (r: Option<Vec<char>>)
    ensures
        match r {
            Some(v) => first_text_line(s@, 0) == Some(v@),
            None => first_text_line(s@, 0) is None,
        },
{
    let mut i: usize = 0;
    while i < s.len()
        invariant
            i <= s@.len(),
            first_text_line(s@, 0) == first_text_line(s@, i as int),
        decreases s.len() - i,
    {
        let (ce, next) = next_line(s, i);
        let t = heading_text_of(s, i, ce);
        if t.len() > 0 {
            return Some(t);
        }
        proof {
            let f = crate::text::find_char_from(s@, '\n', i as int);
            assert(first_text_line(s@, i as int) == first_text_line(s@, f + 1));
            if f >= s@.len() {
                assert(first_text_line(s@, f + 1) is None);
                assert(first_text_line(s@, next as int) is None);
            }
        }
        i = next;
    }
    None
}

/// `s` without `*`, `_` and `` ` ``.
pub fn strip_markup_exec(s: &Vec<char>) -> (r: Vec<char>)
    ensures
        r@ == strip_markup(s@),
{
    let mut out: Vec<char> = Vec::new();
    let mut i: usize = 0;
    while i < s.len()
        invariant
            i <= s@.len(),
            out@ == strip_markup(s@.take(i as int)),
        decreases s.len() - i,
    {
        assert(s@.take(i + 1).drop_last() =~= s@.take(i as int));
        let c = s[i];
        if !(c == '*' || c == '_' || c == '`') {
            out.push(c);
        }
        i += 1;
    }
    assert(s@.take(i as int) =~= s@);
    out
}

/// At most `n` characters of `s`, with `…` appended when something was cut.
pub fn truncate_exec(s: &Vec<char>, n: usize) -> (r: Vec<char>)
    ensures
        r@ == truncate_with_ellipsis(s@, n as int),
{
    if s.len() > n {
        let mut out = crate::text::copy_range(s, 0, n);
        out.push('…');
        out
    } else {
        let out = crate::text::copy_range(s, 0, s.len());
        assert(s@.subrange(0, s@.len() as int) =~= s@);
        out
    }
}

} // verus!
