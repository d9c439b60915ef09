//! The search-operator syntax shared by every surface (the search box, the CLI, an MCP raw
//! query): `tag:NAME` and `#NAME` require a tag, `lang:NAME` and `code:NAME` a fenced-code
//! language, `created:after:DATE`, `created:before:DATE`, `updated:after:DATE` and
//! `updated:before:DATE` bound the block's times; everything else is free text. A query
//! embedding, where a client has one, is attached to the query outside this crate.

use vstd::prelude::*;
use vstd::utf8::encode_utf8;
use crate::block::{opt_str_view, strs_view};
use crate::clock::{parse_query_date, query_date_of};
use crate::fts::{char_alnum, is_alphanumeric};
use crate::index::BlockRecord;
use crate::link::{byte_offset, char_width, lemma_encode_append};
use crate::text::{chars_lt, chars_of, copy_range, eq_ci, is_whitespace, is_ws, lex_lt, lower_ascii, str_lowercase, string_from, to_lowercase, to_lower_ascii};
use crate::view::join_with;

verus! {

/// A structured search.
#[derive(Debug, Clone, Default, PartialEq, Eq)]
pub struct SearchQuery {
    /// Full-text query; `None` matches everything (subject to the filters).
    pub text: Option<String>,
    /// The embedding model of the query vector the client attaches, if any.
    pub vector_model: Option<String>,
    /// Tags that must all be present.
    pub tags: Vec<String>,
    /// Required fenced-code language.
    pub lang: Option<String>,
    /// Keep only blocks created at or after this RFC 3339 UTC instant.
    pub created_after: Option<String>,
    /// Keep only blocks created strictly before this instant.
    pub created_before: Option<String>,
    /// Keep only blocks updated at or after this instant.
    pub updated_after: Option<String>,
    /// Keep only blocks updated strictly before this instant.
    pub updated_before: Option<String>,
    /// Max results; `0` means the default (50).
    pub limit: usize,
}

/// The whitespace-separated tokens of `s[i..]`, after the token `cur` in progress and the
/// tokens `acc` already found (`str::split_whitespace`).
pub open spec fn tokens_from(s: Seq<char>, i: int, cur: Seq<char>, acc: Seq<Seq<char>>) -> Seq<Seq<char>>
    decreases s.len() - i,
{
    if i < 0 || i >= s.len() {
        if cur.len() > 0 {
            acc.push(cur)
        } else {
            acc
        }
    } else if !is_ws(s[i]) {
        tokens_from(s, i + 1, cur.push(s[i]), acc)
    } else {
        tokens_from(s, i + 1, seq![], if cur.len() > 0 { acc.push(cur) } else { acc })
    }
}

/// The whitespace-separated tokens of `s`.
pub open spec fn tokens(s: Seq<char>) -> Seq<Seq<char>> {
    tokens_from(s, 0, seq![], seq![])
}

/// The rest of `t` after the prefix `p` matched ignoring ASCII case, when it is not empty.
pub open spec fn strip_ci(t: Seq<char>, p: Seq<char>) -> Option<Seq<char>> {
    if t.len() > p.len() && eq_ci(t.take(p.len() as int), p) {
        Some(t.skip(p.len() as int))
    } else {
        None
    }
}

/// A character allowed in a `#tag` token.
pub open spec fn tag_char(c: char) -> bool {
    char_alnum(c) || c == '-' || c == '_' || c == '/'
}

/// What a query collects while its tokens are read.
pub struct QueryState {
    pub tags: Seq<Seq<char>>,
    pub lang: Option<Seq<char>>,
    pub created_after: Option<Seq<char>>,
    pub created_before: Option<Seq<char>>,
    pub updated_after: Option<Seq<char>>,
    pub updated_before: Option<Seq<char>>,
    pub words: Seq<Seq<char>>,
}

/// `tags` with `v` lower-cased added, unless that is empty or already present.
pub open spec fn with_tag(tags: Seq<Seq<char>>, v: Seq<char>) -> Seq<Seq<char>> {
    let l = str_lowercase(v);
    if l.len() > 0 && !tags.contains(l) {
        tags.push(l)
    } else {
        tags
    }
}

/// One token read into the state.
pub open spec fn read_token(st: QueryState, t: Seq<char>) -> QueryState {
    if let Some(r) = strip_ci(t, "tag:"@) {
        QueryState { tags: with_tag(st.tags, r), ..st }
    } else if let Some(r) = strip_ci(t, "lang:"@) {
        QueryState { lang: Some(str_lowercase(r)), ..st }
    } else if let Some(r) = strip_ci(t, "code:"@) {
        QueryState { lang: Some(str_lowercase(r)), ..st }
    } else if let Some(r) = strip_ci(t, "created:after:"@) {
        QueryState { created_after: query_date_of(r), ..st }
    } else if let Some(r) = strip_ci(t, "created:before:"@) {
        QueryState { created_before: query_date_of(r), ..st }
    } else if let Some(r) = strip_ci(t, "updated:after:"@) {
        QueryState { updated_after: query_date_of(r), ..st }
    } else if let Some(r) = strip_ci(t, "updated:before:"@) {
        QueryState { updated_before: query_date_of(r), ..st }
    } else if t.len() > 0 && t[0] == '#' && t.len() > 1 && (forall|i: int| 1 <= i < t.len() ==> tag_char(#[trigger] t[i])) {
        QueryState { tags: with_tag(st.tags, t.skip(1)), ..st }
    } else {
        QueryState { words: st.words.push(t), ..st }
    }
}

/// The state after reading the first `n` tokens.
pub open spec fn read_tokens(toks: Seq<Seq<char>>, n: int) -> QueryState
    decreases n,
{
    if n <= 0 {
        QueryState {
            tags: seq![],
            lang: None,
            created_after: None,
            created_before: None,
            updated_after: None,
            updated_before: None,
            words: seq![],
        }
    } else {
        read_token(read_tokens(toks, n - 1), toks[n - 1])
    }
}

/// The query `input` spells (see the module's syntax); the free text is the remaining words
/// joined by single spaces, `None` when there are none.
pub open spec fn parsed_state(input: Seq<char>) -> QueryState {
    read_tokens(tokens(input), tokens(input).len() as int)
}

/// The mathematical value of a [`SearchQuery`] (its text fields and limit).
pub struct QueryView {
    pub text: Option<Seq<char>>,
    pub tags: Seq<Seq<char>>,
    pub lang: Option<Seq<char>>,
    pub created_after: Option<Seq<char>>,
    pub created_before: Option<Seq<char>>,
    pub updated_after: Option<Seq<char>>,
    pub updated_before: Option<Seq<char>>,
    pub vector_model: Option<Seq<char>>,
    pub limit: usize,
}

/// The view of a query.
pub open spec fn query_view(q: SearchQuery) -> QueryView {
    QueryView {
        text: opt_str_view(q.text),
        tags: strs_view(q.tags@),
        lang: opt_str_view(q.lang),
        created_after: opt_str_view(q.created_after),
        created_before: opt_str_view(q.created_before),
        updated_after: opt_str_view(q.updated_after),
        updated_before: opt_str_view(q.updated_before),
        vector_model: opt_str_view(q.vector_model),
        limit: q.limit,
    }
}

/// The empty query.
pub open spec fn empty_query() -> QueryView {
    QueryView {
        text: None,
        tags: seq![],
        lang: None,
        created_after: None,
        created_before: None,
        updated_after: None,
        updated_before: None,
        vector_model: None,
        limit: 0,
    }
}

/// The query `input` spells.
pub open spec fn parsed_query(input: Seq<char>) -> QueryView {
    let st = parsed_state(input);
    QueryView {
        text: if st.words.len() == 0 {
            None
        } else {
            Some(join_with(st.words, seq![' ']))
        },
        tags: st.tags,
        lang: st.lang,
        created_after: st.created_after,
        created_before: st.created_before,
        updated_after: st.updated_after,
        updated_before: st.updated_before,
        vector_model: None,
        limit: 0,
    }
}

/// Whether parsing `input` never cuts a character (the domain of [`SearchQuery::parse`]).
pub open spec fn parse_safe(input: Seq<char>) -> bool {
    forall|i: int| 0 <= i < tokens(input).len() ==> !token_cuts_char(#[trigger] tokens(input)[i])
}

/// Whether the `n`-th byte of `t` falls inside a character.
pub open spec fn cuts_char(t: Seq<char>, n: int) -> bool {
    encode_utf8(t).len() >= n && !(exists|k: int| 0 <= k <= t.len() && #[trigger] byte_offset(t, k) == n)
}

/// Whether no prefix before the date operators matches `t`.
pub open spec fn no_plain_operator(t: Seq<char>) -> bool {
    &&& strip_ci(t, "tag:"@) is None
    &&& strip_ci(t, "lang:"@) is None
    &&& strip_ci(t, "code:"@) is None
}

/// Whether reading token `t` would slice it inside a character. The operator prefixes are
/// tried in order, by byte length 4, 5, 5, 14, 15, 14 and 15, until one matches; a later try
/// at a length already tried cannot cut where the earlier one did not.
pub open spec fn token_cuts_char(t: Seq<char>) -> bool {
    ||| cuts_char(t, 4)
    ||| strip_ci(t, "tag:"@) is None && cuts_char(t, 5)
    ||| no_plain_operator(t) && cuts_char(t, 14)
    ||| no_plain_operator(t) && strip_ci(t, "created:after:"@) is None && cuts_char(t, 15)
}

fn tokens_exec(s: &Vec<char>) -> (r: Vec<Vec<char>>)
    ensures
        r@.map_values(|x: Vec<char>| x@) == tokens(s@),
{
    let mut out: Vec<Vec<char>> = Vec::new();
    let mut cur: Vec<char> = Vec::new();
    let mut i: usize = 0;
    assert(out@.map_values(|x: Vec<char>| x@) =~= Seq::<Seq<char>>::empty());
    assert(cur@ =~= Seq::<char>::empty());
    while i < s.len()
        invariant
            i <= s@.len(),
            tokens(s@) == tokens_from(s@, i as int, cur@, out@.map_values(|x: Vec<char>| x@)),
        decreases s.len() - i,
    {
        let c = s[i];
        if !is_whitespace(c) {
            cur.push(c);
        } else {
            if cur.len() > 0 {
                let ghost before = out@.map_values(|x: Vec<char>| x@);
                out.push(cur);
                assert(out@.map_values(|x: Vec<char>| x@) =~= before.push(cur@));
            }
            cur = Vec::new();
            assert(cur@ =~= Seq::<char>::empty());
        }
        i += 1;
    }
    if cur.len() > 0 {
        let ghost before = out@.map_values(|x: Vec<char>| x@);
        out.push(cur);
        assert(out@.map_values(|x: Vec<char>| x@) =~= before.push(cur@));
    }
    out
}

/// Byte offsets grow with the character index, and the last one is the text's byte length.
proof fn lemma_byte_offset_mono(t: Seq<char>, a: int, b: int)
    requires
        0 <= a <= b <= t.len(),
    ensures
        byte_offset(t, a) <= byte_offset(t, b),
        byte_offset(t, t.len() as int) == encode_utf8(t).len(),
{
    assert(t.take(b) =~= t.take(a) + t.subrange(a, b));
    lemma_encode_append(t.take(a), t.subrange(a, b));
    assert(t.take(t.len() as int) =~= t);
}

/// Whether byte `n` of `t` falls inside a character (see [`cuts_char`]).
fn cuts_char_exec(t: &Vec<char>, n: usize) -> (r: bool)
    requires
        n <= 16,
    ensures
        r == cuts_char(t@, n as int),
{
    let mut i: usize = 0;
    let mut acc: usize = 0;
    assert(t@.take(0) =~= Seq::<char>::empty());
    while i < t.len() && acc < n
        invariant
            i <= t@.len(),
            n <= 16,
            acc == byte_offset(t@, i as int),
            acc < n + 4,
            forall|k: int| 0 <= k < i ==> #[trigger] byte_offset(t@, k) < n,
        decreases t.len() - i,
    {
        let w = char_width(t[i]);
        proof {
            assert(t@.take(i + 1) =~= t@.take(i as int) + seq![t@[i as int]]);
            lemma_encode_append(t@.take(i as int), seq![t@[i as int]]);
        }
        acc = acc + w;
        i += 1;
    }
    proof {
        lemma_byte_offset_mono(t@, i as int, t@.len() as int);
    }
    if acc == n {
        assert(byte_offset(t@, i as int) == n);
        false
    } else if acc < n {
        false
    } else {
        assert forall|k: int| 0 <= k <= t@.len() implies #[trigger] byte_offset(t@, k) != n by {
            if k >= i {
                lemma_byte_offset_mono(t@, i as int, k);
            }
        }
        true
    }
}

/// Whether reading the token `t` would cut a character (see [`token_cuts_char`]).
fn token_cuts_exec(t: &Vec<char>) -> (r: bool)
    ensures
        r == token_cuts_char(t@),
{
    if cuts_char_exec(t, 4) {
        return true;
    }
    let tag = strip_ci_exec(t, "tag:").is_none();
    if tag && cuts_char_exec(t, 5) {
        return true;
    }
    let plain = tag && strip_ci_exec(t, "lang:").is_none() && strip_ci_exec(t, "code:").is_none();
    if plain && cuts_char_exec(t, 14) {
        return true;
    }
    plain && strip_ci_exec(t, "created:after:").is_none() && cuts_char_exec(t, 15)
}

/// Whether [`SearchQuery::parse`] may read `input`: no operator match cuts a character's
/// bytes (see [`parse_safe`]).
pub fn parse_is_safe(input: &str) -> (r: bool)
    ensures
        r == parse_safe(input@),
{
    let v = chars_of(input);
    let toks = tokens_exec(&v);
    let ghost ts = tokens(input@);
    let mut i: usize = 0;
    while i < toks.len()
        invariant
            i <= toks@.len(),
            toks@.map_values(|x: Vec<char>| x@) == ts,
            ts == tokens(input@),
            forall|j: int| 0 <= j < i ==> !token_cuts_char(#[trigger] ts[j]),
        decreases toks.len() - i,
    {
        assert(ts[i as int] == toks@[i as int]@);
        if token_cuts_exec(&toks[i]) {
            return false;
        }
        i += 1;
    }
    true
}

fn strip_ci_exec(t: &Vec<char>, p: &str) -> (r: Option<String>)
    ensures
        opt_str_view(r) == strip_ci(t@, p@),
{
    let pv = chars_of(p);
    if t.len() <= pv.len() {
        return None;
    }
    let mut i: usize = 0;
    while i < pv.len()
        invariant
            i <= pv@.len(),
            pv@ == p@,
            pv@.len() < t@.len(),
            forall|j: int| 0 <= j < i ==> crate::text::lower_ascii(t@[j]) == crate::text::lower_ascii(pv@[j]),
        decreases pv.len() - i,
    {
        if to_lower_ascii(t[i]) != to_lower_ascii(pv[i]) {
            assert(!eq_ci(t@.take(pv@.len() as int), pv@)) by {
                assert(t@.take(pv@.len() as int)[i as int] == t@[i as int]);
                assert(crate::text::lower_ascii(t@.take(pv@.len() as int)[i as int]) != crate::text::lower_ascii(
                    pv@[i as int],
                ));
            }
            return None;
        }
        i += 1;
    }
    assert(eq_ci(t@.take(pv@.len() as int), pv@));
    let rest = copy_range(t, pv.len(), t.len());
    assert(rest@ =~= t@.skip(pv@.len() as int));
    Some(string_from(&rest))
}

fn push_tag(tags: &mut Vec<String>, v: &str)
    ensures
        strs_view(final(tags)@) == with_tag(strs_view(old(tags)@), v@),
{
    let l = to_lowercase(v);
    let lv = chars_of(l.as_str());
    if lv.len() == 0 {
        return;
    }
    let ghost sv = strs_view(tags@);
    let mut i: usize = 0;
    while i < tags.len()
        invariant
            i <= tags@.len(),
            sv == strs_view(tags@),
            sv == strs_view(old(tags)@),
            l@ == str_lowercase(v@),
            l@.len() > 0,
            forall|j: int| 0 <= j < i ==> sv[j] != l@,
        decreases tags.len() - i,
    {
        if crate::text::str_eq(tags[i].as_str(), l.as_str()) {
            assert(sv.contains(l@)) by {
                assert(strs_view(tags@)[i as int] == tags@[i as int]@);
                assert(sv[i as int] == l@);
            }
            return;
        }
        i += 1;
    }
    assert(!sv.contains(l@));
    tags.push(l);
    assert(strs_view(tags@) =~= sv.push(str_lowercase(v@)));
}

fn all_tag_chars(t: &Vec<char>) -> (r: bool)
    requires
        t@.len() > 0,
    ensures
        r == (forall|i: int| 1 <= i < t@.len() ==> tag_char(#[trigger] t@[i])),
{
    let mut i: usize = 1;
    while i < t.len()
        invariant
            1 <= i <= t@.len(),
            forall|j: int| 1 <= j < i ==> tag_char(#[trigger] t@[j]),
        decreases t.len() - i,
    {
        let c = t[i];
        if !(is_alphanumeric(c) || c == '-' || c == '_' || c == '/') {
            return false;
        }
        i += 1;
    }
    true
}

/// The view of a query's text fields and tags, as read from `input`.
pub open spec fn query_matches_state(q: SearchQuery, st: QueryState) -> bool {
    &&& strs_view(q.tags@) == st.tags
    &&& opt_str_view(q.lang) == st.lang
    &&& opt_str_view(q.created_after) == st.created_after
    &&& opt_str_view(q.created_before) == st.created_before
    &&& opt_str_view(q.updated_after) == st.updated_after
    &&& opt_str_view(q.updated_before) == st.updated_before
}

impl SearchQuery {
    /// A query for plain text.
    pub fn text(q: &str) -> (r: SearchQuery)
        ensures
            opt_str_view(r.text) == Some(q@),
            r.tags@.len() == 0,
            r.lang is None && r.vector_model is None,
            r.created_after is None && r.created_before is None,
            r.updated_after is None && r.updated_before is None,
            r.limit == 0,
    {
        SearchQuery {
            text: Some(q.to_owned()),
            vector_model: None,
            tags: Vec::new(),
            lang: None,
            created_after: None,
            created_before: None,
            updated_after: None,
            updated_before: None,
            limit: 0,
        }
    }

    /// Parse free text with inline operators (see the module's syntax). Operator keys are
    /// matched ignoring ASCII case; tags and languages are lower-cased and tags kept once; a
    /// `#` token is a tag only when what follows is a non-empty run of tag characters; a date
    /// operator whose value is not a date clears that bound. The text is `None` when no free
    /// word remains. Input whose operator match would cut a character's bytes is outside the
    /// domain.
    pub fn parse(input: &str) -> (r: SearchQuery)
        requires
            parse_safe(input@),
        ensures
            query_view(r) == parsed_query(input@),
            query_matches_state(r, parsed_state(input@)),
            opt_str_view(r.text) == if parsed_state(input@).words.len() == 0 {
                None
            } else {
                Some(join_with(parsed_state(input@).words, seq![' ']))
            },
            r.vector_model is None,
            r.limit == 0,
    {
        let iv = chars_of(input);
        let toks = tokens_exec(&iv);
        let ghost tv = toks@.map_values(|x: Vec<char>| x@);
        let mut tags: Vec<String> = Vec::new();
        let mut lang: Option<String> = None;
        let mut ca: Option<String> = None;
        let mut cb: Option<String> = None;
        let mut ua: Option<String> = None;
        let mut ub: Option<String> = None;
        let mut words: Vec<Vec<char>> = Vec::new();
        let mut i: usize = 0;
        assert(strs_view(tags@) =~= Seq::<Seq<char>>::empty());
        assert(words@.map_values(|x: Vec<char>| x@) =~= Seq::<Seq<char>>::empty());
        while i < toks.len()
            invariant
                i <= toks@.len(),
                tv == toks@.map_values(|x: Vec<char>| x@),
                tv == tokens(iv@),
                read_tokens(tv, i as int) == (QueryState {
                    tags: strs_view(tags@),
                    lang: opt_str_view(lang),
                    created_after: opt_str_view(ca),
                    created_before: opt_str_view(cb),
                    updated_after: opt_str_view(ua),
                    updated_before: opt_str_view(ub),
                    words: words@.map_values(|x: Vec<char>| x@),
                }),
            decreases toks.len() - i,
        {
            let t = &toks[i];
            assert(tv[i as int] == t@);
            proof {
                reveal_strlit("tag:");
                reveal_strlit("lang:");
                reveal_strlit("code:");
                reveal_strlit("created:after:");
                reveal_strlit("created:before:");
                reveal_strlit("updated:after:");
                reveal_strlit("updated:before:");
            }
            if let Some(r) = strip_ci_exec(t, "tag:") {
                push_tag(&mut tags, r.as_str());
            } else if let Some(r) = strip_ci_exec(t, "lang:") {
                lang = Some(to_lowercase(r.as_str()));
            } else if let Some(r) = strip_ci_exec(t, "code:") {
                lang = Some(to_lowercase(r.as_str()));
            } else if let Some(r) = strip_ci_exec(t, "created:after:") {
                ca = parse_query_date(r.as_str());
            } else if let Some(r) = strip_ci_exec(t, "created:before:") {
                cb = parse_query_date(r.as_str());
            } else if let Some(r) = strip_ci_exec(t, "updated:after:") {
                ua = parse_query_date(r.as_str());
            } else if let Some(r) = strip_ci_exec(t, "updated:before:") {
                ub = parse_query_date(r.as_str());
            } else if t.len() > 1 && t[0] == '#' && all_tag_chars(t) {
                let rest = copy_range(t, 1, t.len());
                assert(rest@ =~= t@.skip(1));
                let rs = string_from(&rest);
                push_tag(&mut tags, rs.as_str());
            } else {
                let ghost before = words@.map_values(|x: Vec<char>| x@);
                let w = copy_range(t, 0, t.len());
                assert(w@ =~= t@);
                words.push(w);
                assert(words@.map_values(|x: Vec<char>| x@) =~= before.push(t@));
            }
            i += 1;
        }
        let ghost wv = words@.map_values(|x: Vec<char>| x@);
        let text = if words.len() == 0 {
            None
        } else {
            let mut out: Vec<char> = Vec::new();
            let mut k: usize = 0;
            while k < words.len()
                invariant
                    k <= words@.len(),
                    wv == words@.map_values(|x: Vec<char>| x@),
                    out@ == join_with(wv.take(k as int), seq![' ']),
                decreases words.len() - k,
            {
                if k > 0 {
                    out.push(' ');
                }
                crate::text::push_all(&mut out, &words[k]);
                let ghost t = wv.take(k + 1);
                assert(t.drop_last() =~= wv.take(k as int));
                assert(t.last() == words@[k as int]@);
                proof {
                    if k == 0 {
                        assert(t =~= seq![words@[0]@]);
                    }
                }
                assert(out@ =~= join_with(t, seq![' ']));
                k += 1;
            }
            assert(wv.take(words@.len() as int) =~= wv);
            Some(string_from(&out))
        };
        SearchQuery {
            text,
            vector_model: None,
            tags,
            lang,
            created_after: ca,
            created_before: cb,
            updated_after: ua,
            updated_before: ub,
            limit: 0,
        }
    }

    /// The effective limit: `limit`, or 50 when it is 0.
    pub fn effective_limit(&self) -> (r: usize)
        ensures
            r == if self.limit == 0 {
                50
            } else {
                self.limit
            },
    {
        if self.limit == 0 {
            50
        } else {
            self.limit
        }
    }

    /// Whether any created or updated bound is set.
    pub fn has_date_filter(&self) -> (r: bool)
        ensures
            r == (self.created_after is Some || self.created_before is Some || self.updated_after is Some
                || self.updated_before is Some),
    {
        self.created_after.is_some() || self.created_before.is_some() || self.updated_after.is_some()
            || self.updated_before.is_some()
    }

    /// Whether `rec` meets the created and updated bounds. Times compare lexically, which is
    /// chronological for their fixed RFC 3339 form; a missing time never meets a bound.
    pub fn matches_dates(&self, rec: &BlockRecord) -> (r: bool)
        ensures
            r == (lower_ok(opt_str_view(self.created_after), opt_str_view(rec.created)) && upper_ok(
                opt_str_view(self.created_before),
                opt_str_view(rec.created),
            ) && lower_ok(opt_str_view(self.updated_after), opt_str_view(rec.updated)) && upper_ok(
                opt_str_view(self.updated_before),
                opt_str_view(rec.updated),
            )),
    {
        lower(&self.created_after, &rec.created) && upper(&self.created_before, &rec.created) && lower(
            &self.updated_after,
            &rec.updated,
        ) && upper(&self.updated_before, &rec.updated)
    }
}

/// A value at or after an inclusive lower bound (no bound always holds).
pub open spec fn lower_ok(bound: Option<Seq<char>>, val: Option<Seq<char>>) -> bool {
    match bound {
        None => true,
        Some(b) => val matches Some(v) && !lex_lt(v, b),
    }
}

/// A value strictly before an exclusive upper bound (no bound always holds).
pub open spec fn upper_ok(bound: Option<Seq<char>>, val: Option<Seq<char>>) -> bool {
    match bound {
        None => true,
        Some(b) => val matches Some(v) && lex_lt(v, b),
    }
}

fn lower(bound: &Option<String>, val: &Option<String>) -> (r: bool)
    ensures
        r == lower_ok(opt_str_view(*bound), opt_str_view(*val)),
{
    match bound {
        None => true,
        Some(b) => match val {
            Some(v) => !chars_lt(&chars_of(v.as_str()), &chars_of(b.as_str())),
            None => false,
        },
    }
}

fn upper(bound: &Option<String>, val: &Option<String>) -> (r: bool)
    ensures
        r == upper_ok(opt_str_view(*bound), opt_str_view(*val)),
{
    match bound {
        None => true,
        Some(b) => match val {
            Some(v) => chars_lt(&chars_of(v.as_str()), &chars_of(b.as_str())),
            None => false,
        },
    }
}

// ---------------------------------------------------------------------------------------------
// The date operators.
// ---------------------------------------------------------------------------------------------

proof fn lemma_tokens_one(t: Seq<char>, i: int)
    requires
        0 <= i <= t.len(),
        t.len() > 0,
        forall|j: int| 0 <= j < t.len() ==> !is_ws(#[trigger] t[j]),
    ensures
        tokens_from(t, i, t.take(i), seq![]) == seq![t],
    decreases t.len() - i,
{
    if i < t.len() {
        assert(t.take(i).push(t[i]) =~= t.take(i + 1));
        lemma_tokens_one(t, i + 1);
    } else {
        assert(t.take(i) =~= t);
    }
}

/// A word without whitespace is one token.
pub proof fn lemma_single_token(t: Seq<char>)
    requires
        t.len() > 0,
        forall|j: int| 0 <= j < t.len() ==> !is_ws(#[trigger] t[j]),
    ensures
        tokens(t) == seq![t],
{
    assert(t.take(0) =~= Seq::<char>::empty());
    lemma_tokens_one(t, 0);
}

/// The operator `updated:after:D` (its key in any ASCII case) filters on the last-modified
/// time: a query of that one token has `updated_after` set to the canonical date of `D`, and no
/// other bound, tag, language or free text.
pub proof fn lemma_updated_after_operator(k: Seq<char>, d: Seq<char>)
    requires
        eq_ci(k, "updated:after:"@),
        forall|j: int| 0 <= j < k.len() ==> !is_ws(#[trigger] k[j]),
        d.len() > 0,
        forall|j: int| 0 <= j < d.len() ==> !is_ws(#[trigger] d[j]),
    ensures
        parsed_query(k + d).updated_after == query_date_of(d),
        parsed_query(k + d).created_after is None,
        parsed_query(k + d).created_before is None,
        parsed_query(k + d).updated_before is None,
        parsed_query(k + d).lang is None,
        parsed_query(k + d).tags.len() == 0,
        parsed_query(k + d).text is None,
{
    reveal_strlit("updated:after:");
    reveal_strlit("tag:");
    reveal_strlit("lang:");
    reveal_strlit("code:");
    reveal_strlit("created:after:");
    reveal_strlit("created:before:");
    let t = k + d;
    let p = "updated:after:"@;
    assert forall|j: int| 0 <= j < t.len() implies !is_ws(#[trigger] t[j]) by {
        if j < k.len() {
            assert(t[j] == k[j]);
        } else {
            assert(t[j] == d[j - k.len()]);
        }
    }
    lemma_single_token(t);
    assert(lower_ascii(k[0]) == lower_ascii(p[0]));
    assert(p[0] == 'u');
    assert(lower_ascii(t[0]) == 'u');
    assert(!eq_ci(t.take(4), "tag:"@)) by {
        assert(t.take(4)[0] == t[0]);
    }
    assert(!eq_ci(t.take(5), "lang:"@)) by {
        assert(t.take(5)[0] == t[0]);
    }
    assert(!eq_ci(t.take(5), "code:"@)) by {
        assert(t.take(5)[0] == t[0]);
    }
    assert(!eq_ci(t.take(14), "created:after:"@)) by {
        assert(t.take(14)[0] == t[0]);
    }
    assert(!eq_ci(t.take(15), "created:before:"@)) by {
        assert(t.take(15)[0] == t[0]);
    }
    assert(t.take(14) =~= k);
    assert(t.skip(14) =~= d);
    assert(strip_ci(t, p) == Some(d));
    let st = read_tokens(seq![t], 1);
    assert(read_tokens(seq![t], 0).words.len() == 0);
    assert(st.updated_after == query_date_of(d));
    assert(st.words.len() == 0);
}

/// The operator `created:after:D` (its key in any ASCII case) bounds the creation time from below: a
/// query of that one token has `created_after` set to the canonical date of `D`, and nothing else.
pub proof fn lemma_created_after_operator(k: Seq<char>, d: Seq<char>)
    requires
        eq_ci(k, "created:after:"@),
        forall|j: int| 0 <= j < k.len() ==> !is_ws(#[trigger] k[j]),
        d.len() > 0,
        forall|j: int| 0 <= j < d.len() ==> !is_ws(#[trigger] d[j]),
    ensures
        parsed_query(k + d).created_after == query_date_of(d),
        parsed_query(k + d).created_before is None,
        parsed_query(k + d).updated_after is None,
        parsed_query(k + d).updated_before is None,
        parsed_query(k + d).lang is None,
        parsed_query(k + d).tags.len() == 0,
        parsed_query(k + d).text is None,
{
    reveal_strlit("tag:");
    reveal_strlit("lang:");
    reveal_strlit("code:");
    reveal_strlit("created:after:");
    reveal_strlit("created:before:");
    reveal_strlit("updated:after:");
    reveal_strlit("updated:before:");
    let t = k + d;
    let p = "created:after:"@;
    assert forall|j: int| 0 <= j < t.len() implies !is_ws(#[trigger] t[j]) by {
        if j < k.len() {
            assert(t[j] == k[j]);
        } else {
            assert(t[j] == d[j - k.len()]);
        }
    }
    lemma_single_token(t);
    assert(!eq_ci(t.take(4), "tag:"@)) by {
        assert(t.take(4)[0] == t[0]);
        assert(lower_ascii(k[0]) == lower_ascii(p[0]));
    }
    assert(!eq_ci(t.take(5), "lang:"@)) by {
        assert(t.take(5)[0] == t[0]);
        assert(lower_ascii(k[0]) == lower_ascii(p[0]));
    }
    assert(!eq_ci(t.take(5), "code:"@)) by {
        assert(t.take(5)[1] == t[1]);
        assert(lower_ascii(k[1]) == lower_ascii(p[1]));
    }
    assert(t.take(14) =~= k);
    assert(t.skip(14) =~= d);
    assert(strip_ci(t, p) == Some(d));
    let st = read_tokens(seq![t], 1);
    assert(read_tokens(seq![t], 0).words.len() == 0);
    assert(st.created_after == query_date_of(d));
    assert(st.words.len() == 0);
}

/// The operator `created:before:D` (its key in any ASCII case) bounds the creation time from above: a
/// query of that one token has `created_before` set to the canonical date of `D`, and nothing else.
pub proof fn lemma_created_before_operator(k: Seq<char>, d: Seq<char>)
    requires
        eq_ci(k, "created:before:"@),
        forall|j: int| 0 <= j < k.len() ==> !is_ws(#[trigger] k[j]),
        d.len() > 0,
        forall|j: int| 0 <= j < d.len() ==> !is_ws(#[trigger] d[j]),
    ensures
        parsed_query(k + d).created_before == query_date_of(d),
        parsed_query(k + d).created_after is None,
        parsed_query(k + d).updated_after is None,
        parsed_query(k + d).updated_before is None,
        parsed_query(k + d).lang is None,
        parsed_query(k + d).tags.len() == 0,
        parsed_query(k + d).text is None,
{
    reveal_strlit("tag:");
    reveal_strlit("lang:");
    reveal_strlit("code:");
    reveal_strlit("created:after:");
    reveal_strlit("created:before:");
    reveal_strlit("updated:after:");
    reveal_strlit("updated:before:");
    let t = k + d;
    let p = "created:before:"@;
    assert forall|j: int| 0 <= j < t.len() implies !is_ws(#[trigger] t[j]) by {
        if j < k.len() {
            assert(t[j] == k[j]);
        } else {
            assert(t[j] == d[j - k.len()]);
        }
    }
    lemma_single_token(t);
    assert(!eq_ci(t.take(4), "tag:"@)) by {
        assert(t.take(4)[0] == t[0]);
        assert(lower_ascii(k[0]) == lower_ascii(p[0]));
    }
    assert(!eq_ci(t.take(5), "lang:"@)) by {
        assert(t.take(5)[0] == t[0]);
        assert(lower_ascii(k[0]) == lower_ascii(p[0]));
    }
    assert(!eq_ci(t.take(5), "code:"@)) by {
        assert(t.take(5)[1] == t[1]);
        assert(lower_ascii(k[1]) == lower_ascii(p[1]));
    }
    assert(!eq_ci(t.take(14), "created:after:"@)) by {
        assert(t.take(14)[8] == t[8]);
        assert(lower_ascii(k[8]) == lower_ascii(p[8]));
    }
    assert(t.take(15) =~= k);
    assert(t.skip(15) =~= d);
    assert(strip_ci(t, p) == Some(d));
    let st = read_tokens(seq![t], 1);
    assert(read_tokens(seq![t], 0).words.len() == 0);
    assert(st.created_before == query_date_of(d));
    assert(st.words.len() == 0);
}

/// The operator `updated:before:D` (its key in any ASCII case) bounds the last-modified time from
/// above: a query of that one token has `updated_before` set to the canonical date of `D`, and
/// nothing else.
pub proof fn lemma_updated_before_operator(k: Seq<char>, d: Seq<char>)
    requires
        eq_ci(k, "updated:before:"@),
        forall|j: int| 0 <= j < k.len() ==> !is_ws(#[trigger] k[j]),
        d.len() > 0,
        forall|j: int| 0 <= j < d.len() ==> !is_ws(#[trigger] d[j]),
    ensures
        parsed_query(k + d).updated_before == query_date_of(d),
        parsed_query(k + d).created_after is None,
        parsed_query(k + d).created_before is None,
        parsed_query(k + d).updated_after is None,
        parsed_query(k + d).lang is None,
        parsed_query(k + d).tags.len() == 0,
        parsed_query(k + d).text is None,
{
    reveal_strlit("tag:");
    reveal_strlit("lang:");
    reveal_strlit("code:");
    reveal_strlit("created:after:");
    reveal_strlit("created:before:");
    reveal_strlit("updated:after:");
    reveal_strlit("updated:before:");
    let t = k + d;
    let p = "updated:before:"@;
    assert forall|j: int| 0 <= j < t.len() implies !is_ws(#[trigger] t[j]) by {
        if j < k.len() {
            assert(t[j] == k[j]);
        } else {
            assert(t[j] == d[j - k.len()]);
        }
    }
    lemma_single_token(t);
    assert(!eq_ci(t.take(4), "tag:"@)) by {
        assert(t.take(4)[0] == t[0]);
        assert(lower_ascii(k[0]) == lower_ascii(p[0]));
    }
    assert(!eq_ci(t.take(5), "lang:"@)) by {
        assert(t.take(5)[0] == t[0]);
        assert(lower_ascii(k[0]) == lower_ascii(p[0]));
    }
    assert(!eq_ci(t.take(5), "code:"@)) by {
        assert(t.take(5)[0] == t[0]);
        assert(lower_ascii(k[0]) == lower_ascii(p[0]));
    }
    assert(!eq_ci(t.take(14), "created:after:"@)) by {
        assert(t.take(14)[0] == t[0]);
        assert(lower_ascii(k[0]) == lower_ascii(p[0]));
    }
    assert(!eq_ci(t.take(15), "created:before:"@)) by {
        assert(t.take(15)[0] == t[0]);
        assert(lower_ascii(k[0]) == lower_ascii(p[0]));
    }
    assert(!eq_ci(t.take(14), "updated:after:"@)) by {
        assert(t.take(14)[8] == t[8]);
        assert(lower_ascii(k[8]) == lower_ascii(p[8]));
    }
    assert(t.take(15) =~= k);
    assert(t.skip(15) =~= d);
    assert(strip_ci(t, p) == Some(d));
    let st = read_tokens(seq![t], 1);
    assert(read_tokens(seq![t], 0).words.len() == 0);
    assert(st.updated_before == query_date_of(d));
    assert(st.words.len() == 0);
}

// ---------------------------------------------------------------------------------------------
// A token after others.
// ---------------------------------------------------------------------------------------------

proof fn lemma_tokens_rest(s: Seq<char>, off: int, b: Seq<char>, j: int, acc: Seq<Seq<char>>)
    requires
        0 <= off,
        s.len() == off + b.len(),
        s.skip(off) == b,
        b.len() > 0,
        forall|k: int| 0 <= k < b.len() ==> !is_ws(#[trigger] b[k]),
        0 <= j <= b.len(),
    ensures
        tokens_from(s, off + j, b.take(j), acc) == acc.push(b),
    decreases b.len() - j,
{
    if j < b.len() {
        assert(s[off + j] == b[j]);
        assert(b.take(j).push(b[j]) =~= b.take(j + 1));
        lemma_tokens_rest(s, off, b, j + 1, acc);
    } else {
        assert(b.take(j) =~= b);
    }
}

proof fn lemma_tokens_append_from(
    a: Seq<char>,
    w: char,
    b: Seq<char>,
    i: int,
    cur: Seq<char>,
    acc: Seq<Seq<char>>,
)
    requires
        0 <= i <= a.len(),
        is_ws(w),
        b.len() > 0,
        forall|k: int| 0 <= k < b.len() ==> !is_ws(#[trigger] b[k]),
    ensures
        tokens_from(a + seq![w] + b, i, cur, acc) == tokens_from(a, i, cur, acc).push(b),
    decreases a.len() - i,
{
    let s = a + seq![w] + b;
    if i < a.len() {
        assert(s[i] == a[i]);
        if !is_ws(a[i]) {
            lemma_tokens_append_from(a, w, b, i + 1, cur.push(a[i]), acc);
        } else {
            lemma_tokens_append_from(a, w, b, i + 1, seq![], if cur.len() > 0 { acc.push(cur) } else { acc });
        }
    } else {
        let acc2 = if cur.len() > 0 { acc.push(cur) } else { acc };
        assert(s[i] == w);
        assert(tokens_from(s, i, cur, acc) == tokens_from(s, i + 1, seq![], acc2));
        assert(s.skip(i + 1) =~= b);
        assert(b.take(0) =~= Seq::<char>::empty());
        lemma_tokens_rest(s, i + 1, b, 0, acc2);
    }
}

proof fn lemma_read_tokens_prefix(ts: Seq<Seq<char>>, t: Seq<char>, n: int)
    requires
        0 <= n <= ts.len(),
    ensures
        read_tokens(ts.push(t), n) == read_tokens(ts, n),
    decreases n,
{
    if n > 0 {
        lemma_read_tokens_prefix(ts, t, n - 1);
        assert(ts.push(t)[n - 1] == ts[n - 1]);
    }
}

/// Reading `a`, a space and then one more token `t` reads `a` and then `t`.
pub proof fn lemma_last_token(a: Seq<char>, t: Seq<char>)
    requires
        t.len() > 0,
        forall|k: int| 0 <= k < t.len() ==> !is_ws(#[trigger] t[k]),
    ensures
        parsed_state(a + seq![' '] + t) == read_token(parsed_state(a), t),
{
    lemma_token_after_whitespace(a, ' ', t);
}

/// Any whitespace character separates tokens: reading `a`, one whitespace character `w` and then
/// one more token `t` reads `a` and then `t`.
pub proof fn lemma_token_after_whitespace(a: Seq<char>, w: char, t: Seq<char>)
    requires
        is_ws(w),
        t.len() > 0,
        forall|k: int| 0 <= k < t.len() ==> !is_ws(#[trigger] t[k]),
    ensures
        parsed_state(a + seq![w] + t) == read_token(parsed_state(a), t),
{
    lemma_tokens_append_from(a, w, t, 0, seq![], seq![]);
    let ts = tokens(a);
    assert(tokens(a + seq![w] + t) == ts.push(t));
    lemma_read_tokens_prefix(ts, t, ts.len() as int);
    assert(ts.push(t)[ts.len() as int] == t);
}

/// The date operators leave everything else as the tokens before them set it: after any text
/// `a`, the token `updated:after:D` (key in any case) sets only `updated_after`, to the
/// canonical date of `D`; the free text, tags, language and the other three bounds are those
/// of `a` alone. Likewise `created:after:`, `created:before:` and `updated:before:` set only
/// their own bound.
pub proof fn lemma_date_operator_after_text(a: Seq<char>, k: Seq<char>, d: Seq<char>)
    requires
        eq_ci(k, "updated:after:"@) || eq_ci(k, "updated:before:"@) || eq_ci(k, "created:after:"@)
            || eq_ci(k, "created:before:"@),
        forall|j: int| 0 <= j < k.len() ==> !is_ws(#[trigger] k[j]),
        d.len() > 0,
        forall|j: int| 0 <= j < d.len() ==> !is_ws(#[trigger] d[j]),
    ensures
        ({
            let before = parsed_query(a);
            let after = parsed_query(a + seq![' '] + (k + d));
            &&& after.text == before.text
            &&& after.tags == before.tags
            &&& after.lang == before.lang
            &&& after.updated_after == if eq_ci(k, "updated:after:"@) {
                query_date_of(d)
            } else {
                before.updated_after
            }
            &&& after.updated_before == if eq_ci(k, "updated:before:"@) {
                query_date_of(d)
            } else {
                before.updated_before
            }
            &&& after.created_after == if eq_ci(k, "created:after:"@) {
                query_date_of(d)
            } else {
                before.created_after
            }
            &&& after.created_before == if eq_ci(k, "created:before:"@) {
                query_date_of(d)
            } else {
                before.created_before
            }
        }),
{
    reveal_strlit("tag:");
    reveal_strlit("lang:");
    reveal_strlit("code:");
    reveal_strlit("created:after:");
    reveal_strlit("created:before:");
    reveal_strlit("updated:after:");
    reveal_strlit("updated:before:");
    let t = k + d;
    assert forall|j: int| 0 <= j < t.len() implies !is_ws(#[trigger] t[j]) by {
        if j < k.len() {
            assert(t[j] == k[j]);
        } else {
            assert(t[j] == d[j - k.len()]);
        }
    }
    lemma_last_token(a, t);
    let st = parsed_state(a);
    let n = k.len() as int;
    assert(t.take(n) =~= k);
    assert(t.skip(n) =~= d);
    assert(t.len() > n);
    assert(t.take(4)[0] == t[0]);
    assert(t.take(5)[0] == t[0]);
    assert(t.take(5)[1] == t[1]);
    assert(t.take(14)[0] == t[0]);
    assert(t.take(15)[0] == t[0]);
    assert(t.take(14)[8] == t[8]);
    assert(t.take(15)[8] == t[8]);
    assert(t[0] == k[0] && t[1] == k[1] && t[8] == k[8]);
    if eq_ci(k, "updated:after:"@) {
        let p = "updated:after:"@;
        assert(lower_ascii(k[0]) == lower_ascii(p[0]) && lower_ascii(k[8]) == lower_ascii(p[8]));
        assert(!eq_ci(k, "updated:before:"@) && !eq_ci(k, "created:after:"@) && !eq_ci(k, "created:before:"@));
        assert(strip_ci(t, "tag:"@) is None);
        assert(strip_ci(t, "lang:"@) is None);
        assert(strip_ci(t, "code:"@) is None);
        assert(strip_ci(t, "created:after:"@) is None);
        assert(strip_ci(t, "created:before:"@) is None);
        assert(strip_ci(t, p) == Some(d));
    } else if eq_ci(k, "updated:before:"@) {
        let p = "updated:before:"@;
        assert(lower_ascii(k[0]) == lower_ascii(p[0]) && lower_ascii(k[8]) == lower_ascii(p[8]));
        assert(!eq_ci(k, "created:after:"@) && !eq_ci(k, "created:before:"@));
        assert(strip_ci(t, "tag:"@) is None);
        assert(strip_ci(t, "lang:"@) is None);
        assert(strip_ci(t, "code:"@) is None);
        assert(strip_ci(t, "created:after:"@) is None);
        assert(strip_ci(t, "created:before:"@) is None);
        assert(strip_ci(t, "updated:after:"@) is None);
        assert(strip_ci(t, p) == Some(d));
    } else if eq_ci(k, "created:after:"@) {
        let p = "created:after:"@;
        assert(lower_ascii(k[0]) == lower_ascii(p[0]) && lower_ascii(k[1]) == lower_ascii(p[1]) && lower_ascii(k[8]) == lower_ascii(p[8]));
        assert(!eq_ci(k, "created:before:"@));
        assert(strip_ci(t, "tag:"@) is None);
        assert(strip_ci(t, "lang:"@) is None);
        assert(strip_ci(t, "code:"@) is None);
        assert(strip_ci(t, p) == Some(d));
    } else {
        let p = "created:before:"@;
        assert(lower_ascii(k[0]) == lower_ascii(p[0]) && lower_ascii(k[1]) == lower_ascii(p[1]) && lower_ascii(k[8]) == lower_ascii(p[8]));
        assert(strip_ci(t, "tag:"@) is None);
        assert(strip_ci(t, "lang:"@) is None);
        assert(strip_ci(t, "code:"@) is None);
        assert(strip_ci(t, "created:after:"@) is None);
        assert(strip_ci(t, p) == Some(d));
    }
}

proof fn lemma_lower_keeps_colon_out(c: char)
    requires
        c != ':',
    ensures
        lower_ascii(c) != ':',
{
    if crate::text::is_ascii_upper(c) {
        let v: u32 = ((c as u32) + 32) as u32;
        assert(97 <= v <= 122);
        assert(lower_ascii(c) == v as char);
        if v as char == ':' {
            vstd::utf8::char_u32_cast(':', 58u32);
            assert((v as char) as u32 == v);
        }
    }
}

/// `tags` with `v` lower-cased added, unless the result is empty or already there: what a tag
/// operator does to the tags collected so far.
pub open spec fn tags_plus(tags: Seq<Seq<char>>, v: Seq<char>) -> Seq<Seq<char>> {
    if str_lowercase(v).len() > 0 && !tags.contains(str_lowercase(v)) {
        tags.push(str_lowercase(v))
    } else {
        tags
    }
}

proof fn lemma_joined_token(k: Seq<char>, v: Seq<char>)
    requires
        forall|j: int| 0 <= j < k.len() ==> !is_ws(#[trigger] k[j]),
        v.len() > 0,
        forall|j: int| 0 <= j < v.len() ==> !is_ws(#[trigger] v[j]),
    ensures
        (k + v).len() > 0,
        forall|j: int| 0 <= j < (k + v).len() ==> !is_ws(#[trigger] (k + v)[j]),
        (k + v).take(k.len() as int) == k,
        (k + v).skip(k.len() as int) == v,
{
    let t = k + v;
    assert forall|j: int| 0 <= j < t.len() implies !is_ws(#[trigger] t[j]) by {
        if j < k.len() {
            assert(t[j] == k[j]);
        } else {
            assert(t[j] == v[j - k.len()]);
        }
    }
    assert(t.take(k.len() as int) =~= k);
    assert(t.skip(k.len() as int) =~= v);
}

/// After any text `a`, the token `tag:V` (key in any case) adds `V` lower-cased to the tags
/// (once, and only if it is not empty), and leaves the text, language and date bounds as `a`
/// set them.
pub proof fn lemma_tag_operator_after_text(a: Seq<char>, k: Seq<char>, v: Seq<char>)
    requires
        eq_ci(k, "tag:"@),
        forall|j: int| 0 <= j < k.len() ==> !is_ws(#[trigger] k[j]),
        v.len() > 0,
        forall|j: int| 0 <= j < v.len() ==> !is_ws(#[trigger] v[j]),
    ensures
        ({
            let before = parsed_query(a);
            let after = parsed_query(a + seq![' '] + (k + v));
            &&& after.tags == tags_plus(before.tags, v)
            &&& after.text == before.text
            &&& after.lang == before.lang
            &&& after.created_after == before.created_after
            &&& after.created_before == before.created_before
            &&& after.updated_after == before.updated_after
            &&& after.updated_before == before.updated_before
        }),
{
    reveal_strlit("tag:");
    lemma_joined_token(k, v);
    lemma_last_token(a, k + v);
    assert(strip_ci(k + v, "tag:"@) == Some(v));
}

/// After any text `a`, the token `lang:V` or `code:V` (key in any case) sets the language to
/// `V` lower-cased, and leaves the text, tags and date bounds as `a` set them.
pub proof fn lemma_lang_operator_after_text(a: Seq<char>, k: Seq<char>, v: Seq<char>)
    requires
        eq_ci(k, "lang:"@) || eq_ci(k, "code:"@),
        forall|j: int| 0 <= j < k.len() ==> !is_ws(#[trigger] k[j]),
        v.len() > 0,
        forall|j: int| 0 <= j < v.len() ==> !is_ws(#[trigger] v[j]),
    ensures
        ({
            let before = parsed_query(a);
            let after = parsed_query(a + seq![' '] + (k + v));
            &&& after.lang == Some(str_lowercase(v))
            &&& after.tags == before.tags
            &&& after.text == before.text
            &&& after.created_after == before.created_after
            &&& after.created_before == before.created_before
            &&& after.updated_after == before.updated_after
            &&& after.updated_before == before.updated_before
        }),
{
    reveal_strlit("tag:");
    reveal_strlit("lang:");
    reveal_strlit("code:");
    lemma_joined_token(k, v);
    let t = k + v;
    lemma_last_token(a, t);
    assert(t.take(4)[0] == t[0] && t[0] == k[0]);
    assert(t.take(5)[0] == t[0]);
    if eq_ci(k, "lang:"@) {
        assert(lower_ascii(k[0]) == lower_ascii("lang:"@[0]));
        assert(strip_ci(t, "tag:"@) is None);
        assert(strip_ci(t, "lang:"@) == Some(v));
    } else {
        assert(lower_ascii(k[0]) == lower_ascii("code:"@[0]));
        assert(strip_ci(t, "tag:"@) is None);
        assert(strip_ci(t, "lang:"@) is None);
        assert(strip_ci(t, "code:"@) == Some(v));
    }
}

/// After any text `a`, a token `#V` where `V` is a non-empty run of tag characters (letters,
/// digits, `-`, `_`, `/`) adds `V` lower-cased to the tags and changes nothing else.
pub proof fn lemma_hash_tag_after_text(a: Seq<char>, v: Seq<char>)
    requires
        v.len() > 0,
        forall|j: int| 0 <= j < v.len() ==> tag_char(#[trigger] v[j]) && !is_ws(v[j]),
    ensures
        ({
            let before = parsed_query(a);
            let after = parsed_query(a + seq![' '] + (seq!['#'] + v));
            &&& after.tags == tags_plus(before.tags, v)
            &&& after.text == before.text
            &&& after.lang == before.lang
            &&& after.created_after == before.created_after
            &&& after.created_before == before.created_before
            &&& after.updated_after == before.updated_after
            &&& after.updated_before == before.updated_before
        }),
{
    reveal_strlit("tag:");
    reveal_strlit("lang:");
    reveal_strlit("code:");
    reveal_strlit("created:after:");
    reveal_strlit("created:before:");
    reveal_strlit("updated:after:");
    reveal_strlit("updated:before:");
    let h = seq!['#'];
    lemma_joined_token(h, v);
    let t = h + v;
    lemma_last_token(a, t);
    assert(t[0] == '#');
    assert(lower_ascii('#') == '#');
    if t.len() > 4 {
        assert(t.take(4)[0] == t[0]);
    }
    if t.len() > 5 {
        assert(t.take(5)[0] == t[0]);
    }
    if t.len() > 14 {
        assert(t.take(14)[0] == t[0]);
    }
    if t.len() > 15 {
        assert(t.take(15)[0] == t[0]);
    }
    assert(strip_ci(t, "tag:"@) is None);
    assert(strip_ci(t, "lang:"@) is None);
    assert(strip_ci(t, "code:"@) is None);
    assert(strip_ci(t, "created:after:"@) is None);
    assert(strip_ci(t, "created:before:"@) is None);
    assert(strip_ci(t, "updated:after:"@) is None);
    assert(strip_ci(t, "updated:before:"@) is None);
    assert forall|i: int| 1 <= i < t.len() implies tag_char(#[trigger] t[i]) by {
        assert(t[i] == v[i - 1]);
    }
}

/// After any text `a`, a word that is no operator (it holds no `:` and does not start with `#`)
/// is free text: the query's text becomes that word, or `a`'s text, a space and that word; the
/// tags, language and date bounds are `a`'s.
pub proof fn lemma_plain_word_after_text(a: Seq<char>, w: Seq<char>)
    requires
        w.len() > 0,
        w[0] != '#',
        forall|j: int| 0 <= j < w.len() ==> #[trigger] w[j] != ':' && !is_ws(w[j]),
    ensures
        ({
            let before = parsed_query(a);
            let after = parsed_query(a + seq![' '] + w);
            &&& after.text == Some(
                match before.text {
                    Some(x) => x + seq![' '] + w,
                    None => w,
                },
            )
            &&& after.tags == before.tags
            &&& after.lang == before.lang
            &&& after.created_after == before.created_after
            &&& after.created_before == before.created_before
            &&& after.updated_after == before.updated_after
            &&& after.updated_before == before.updated_before
        }),
{
    reveal_strlit("tag:");
    reveal_strlit("lang:");
    reveal_strlit("code:");
    reveal_strlit("created:after:");
    reveal_strlit("created:before:");
    reveal_strlit("updated:after:");
    reveal_strlit("updated:before:");
    lemma_last_token(a, w);
    assert forall|j: int| 0 <= j < w.len() implies lower_ascii(#[trigger] w[j]) != ':' by {
        lemma_lower_keeps_colon_out(w[j]);
    }
    if w.len() > 4 {
        assert(w.take(4)[3] == w[3]);
        assert(lower_ascii(w.take(4)[3]) != lower_ascii("tag:"@[3]));
    }
    if w.len() > 5 {
        assert(w.take(5)[4] == w[4]);
        assert(lower_ascii(w.take(5)[4]) != lower_ascii("lang:"@[4]));
        assert(lower_ascii(w.take(5)[4]) != lower_ascii("code:"@[4]));
    }
    if w.len() > 14 {
        assert(w.take(14)[7] == w[7]);
        assert(lower_ascii(w.take(14)[7]) != lower_ascii("created:after:"@[7]));
        assert(lower_ascii(w.take(14)[7]) != lower_ascii("updated:after:"@[7]));
    }
    if w.len() > 15 {
        assert(w.take(15)[7] == w[7]);
        assert(lower_ascii(w.take(15)[7]) != lower_ascii("created:before:"@[7]));
        assert(lower_ascii(w.take(15)[7]) != lower_ascii("updated:before:"@[7]));
    }
    assert(strip_ci(w, "tag:"@) is None);
    assert(strip_ci(w, "lang:"@) is None);
    assert(strip_ci(w, "code:"@) is None);
    assert(strip_ci(w, "created:after:"@) is None);
    assert(strip_ci(w, "created:before:"@) is None);
    assert(strip_ci(w, "updated:after:"@) is None);
    assert(strip_ci(w, "updated:before:"@) is None);
    let ws = parsed_state(a).words;
    if ws.len() > 0 {
        assert(ws.push(w).drop_last() =~= ws);
    }
}

/// After any text `a`, a token `#V` where `V` is empty or holds a character that no tag may
/// hold is free text like any other word, and changes nothing else.
pub proof fn lemma_hash_word_after_text(a: Seq<char>, v: Seq<char>)
    requires
        v.len() == 0 || exists|j: int| 0 <= j < v.len() && !tag_char(#[trigger] v[j]),
        forall|j: int| 0 <= j < v.len() ==> !is_ws(#[trigger] v[j]),
    ensures
        ({
            let w = seq!['#'] + v;
            let before = parsed_query(a);
            let after = parsed_query(a + seq![' '] + w);
            &&& after.text == Some(
                match before.text {
                    Some(x) => x + seq![' '] + w,
                    None => w,
                },
            )
            &&& after.tags == before.tags
            &&& after.lang == before.lang
            &&& after.created_after == before.created_after
            &&& after.created_before == before.created_before
            &&& after.updated_after == before.updated_after
            &&& after.updated_before == before.updated_before
        }),
{
    reveal_strlit("tag:");
    reveal_strlit("lang:");
    reveal_strlit("code:");
    reveal_strlit("created:after:");
    reveal_strlit("created:before:");
    reveal_strlit("updated:after:");
    reveal_strlit("updated:before:");
    let h = seq!['#'];
    let w = h + v;
    assert forall|j: int| 0 <= j < w.len() implies !is_ws(#[trigger] w[j]) by {
        if j > 0 {
            assert(w[j] == v[j - 1]);
        }
    }
    lemma_last_token(a, w);
    assert(w[0] == '#');
    assert(lower_ascii('#') == '#');
    if w.len() > 4 {
        assert(w.take(4)[0] == w[0]);
    }
    if w.len() > 5 {
        assert(w.take(5)[0] == w[0]);
    }
    if w.len() > 14 {
        assert(w.take(14)[0] == w[0]);
    }
    if w.len() > 15 {
        assert(w.take(15)[0] == w[0]);
    }
    assert(strip_ci(w, "tag:"@) is None);
    assert(strip_ci(w, "lang:"@) is None);
    assert(strip_ci(w, "code:"@) is None);
    assert(strip_ci(w, "created:after:"@) is None);
    assert(strip_ci(w, "created:before:"@) is None);
    assert(strip_ci(w, "updated:after:"@) is None);
    assert(strip_ci(w, "updated:before:"@) is None);
    if v.len() > 0 {
        let j = choose|j: int| 0 <= j < v.len() && !tag_char(#[trigger] v[j]);
        assert(w[j + 1] == v[j]);
        assert(!tag_char(w[j + 1]));
    }
    let ws = parsed_state(a).words;
    if ws.len() > 0 {
        assert(ws.push(w).drop_last() =~= ws);
    }
}

/// Text made only of whitespace is the empty query: no free text, no tag, no language and no
/// date bound.
pub proof fn lemma_blank_query(s: Seq<char>)
    requires
        forall|j: int| 0 <= j < s.len() ==> is_ws(#[trigger] s[j]),
    ensures
        ({
            let q = parsed_query(s);
            &&& q.text is None
            &&& q.tags.len() == 0
            &&& q.lang is None
            &&& q.created_after is None
            &&& q.created_before is None
            &&& q.updated_after is None
            &&& q.updated_before is None
        }),
{
    lemma_blank_tokens(s, 0);
}

proof fn lemma_blank_tokens(s: Seq<char>, i: int)
    requires
        0 <= i <= s.len(),
        forall|j: int| 0 <= j < s.len() ==> is_ws(#[trigger] s[j]),
    ensures
        tokens_from(s, i, seq![], seq![]) == Seq::<Seq<char>>::empty(),
    decreases s.len() - i,
{
    if i < s.len() {
        assert(is_ws(s[i]));
        lemma_blank_tokens(s, i + 1);
    }
}

} // verus!
