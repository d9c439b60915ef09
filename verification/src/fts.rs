//! Turning free search text into a full-text match expression: every run of alphanumeric
//! characters becomes a quoted term and the terms are OR-joined, except that the text between
//! a pair of double quotes stays one ordered phrase. Nothing the user typed reaches the
//! expression but those runs, so no query syntax can be injected.

use vstd::prelude::*;
use crate::render::{parts_view, split_exec, split_from, split_on};
use crate::text::{chars_of, find_char_from, lemma_find_char_from, push_all, string_from};
use crate::view::join_with;

verus! {

/// Whether `char::is_alphanumeric` holds of `c` (Unicode `Alphabetic` or `Numeric`).
pub uninterp spec fn char_alnum(c: char) -> bool;

/// `char::is_alphanumeric`: the contract names the result (the Unicode tables are not restated).
#[verifier::external_body]
pub(crate) fn is_alphanumeric(c: char) -> (r: bool)
    ensures
        r == char_alnum(c),
{
    c.is_alphanumeric()
}

/// The maximal runs of alphanumeric characters of `s[i..]`, after the run `cur` in progress and
/// the runs `acc` already found.
pub open spec fn words_from(s: Seq<char>, i: int, cur: Seq<char>, acc: Seq<Seq<char>>) -> Seq<Seq<char>>
    decreases s.len() - i,
{
    if i < 0 || i >= s.len() {
        if cur.len() > 0 {
            acc.push(cur)
        } else {
            acc
        }
    } else if char_alnum(s[i]) {
        words_from(s, i + 1, cur.push(s[i]), acc)
    } else {
        words_from(s, i + 1, seq![], if cur.len() > 0 { acc.push(cur) } else { acc })
    }
}

/// The maximal runs of alphanumeric characters of `s`, in order.
pub open spec fn words(s: Seq<char>) -> Seq<Seq<char>> {
    words_from(s, 0, seq![], seq![])
}

/// `w` in double quotes.
pub open spec fn quoted_term(w: Seq<char>) -> Seq<char> {
    seq!['"'] + w + seq!['"']
}

/// The terms of the `i`-th piece of the text between double quotes: nothing for a piece with
/// no words; inside quotes (odd `i`) one phrase of its words joined by spaces; outside, one term
/// per word.
pub open spec fn segment_terms(seg: Seq<char>, i: int) -> Seq<Seq<char>> {
    let ws = words(seg);
    if ws.len() == 0 {
        seq![]
    } else if i % 2 == 1 {
        seq![quoted_term(join_with(ws, seq![' ']))]
    } else {
        ws.map_values(|w: Seq<char>| quoted_term(w))
    }
}

/// The terms of the first `n` pieces of `segs`.
pub open spec fn terms_upto(segs: Seq<Seq<char>>, n: int) -> Seq<Seq<char>>
    decreases n,
{
    if n <= 0 {
        seq![]
    } else {
        terms_upto(segs, n - 1) + segment_terms(segs[n - 1], n - 1)
    }
}

/// The match expression for `text`: its terms joined by ` OR `.
pub open spec fn fts_query(text: Seq<char>) -> Seq<char> {
    let segs = split_on(text, '"');
    join_with(terms_upto(segs, segs.len() as int), " OR "@)
}

fn words_exec(s: &Vec<char>) -> (r: Vec<Vec<char>>)
    ensures
        parts_view(r@) == words(s@),
{
    let mut out: Vec<Vec<char>> = Vec::new();
    let mut cur: Vec<char> = Vec::new();
    let mut i: usize = 0;
    assert(parts_view(out@) =~= Seq::<Seq<char>>::empty());
    assert(cur@ =~= Seq::<char>::empty());
    while i < s.len()
        invariant
            i <= s@.len(),
            words(s@) == words_from(s@, i as int, cur@, parts_view(out@)),
        decreases s.len() - i,
    {
        let c = s[i];
        if is_alphanumeric(c) {
            cur.push(c);
        } else {
            if cur.len() > 0 {
                let ghost before = parts_view(out@);
                out.push(cur);
                assert(parts_view(out@) =~= before.push(cur@));
                cur = Vec::new();
            } else {
                cur = Vec::new();
            }
            assert(cur@ =~= Seq::<char>::empty());
        }
        i += 1;
    }
    if cur.len() > 0 {
        let ghost before = parts_view(out@);
        out.push(cur);
        assert(parts_view(out@) =~= before.push(cur@));
    }
    out
}

fn quote(out: &mut Vec<char>, w: &Vec<char>)
    ensures
        final(out)@ == old(out)@ + quoted_term(w@),
{
    out.push('"');
    push_all(out, w);
    out.push('"');
    assert(final(out)@ =~= old(out)@ + quoted_term(w@));
}

fn push_term(terms: &mut Vec<Vec<char>>, t: Vec<char>)
    ensures
        parts_view(final(terms)@) == parts_view(old(terms)@).push(t@),
{
    terms.push(t);
    assert(parts_view(final(terms)@) =~= parts_view(old(terms)@).push(t@));
}

fn join_words(ws: &Vec<Vec<char>>, sep: &str) -> (r: Vec<char>)
    ensures
        r@ == join_with(parts_view(ws@), sep@),
{
    let ghost ps = parts_view(ws@);
    let mut out: Vec<char> = Vec::new();
    let mut i: usize = 0;
    while i < ws.len()
        invariant
            i <= ws@.len(),
            ps == parts_view(ws@),
            out@ == join_with(ps.take(i as int), sep@),
        decreases ws.len() - i,
    {
        let ghost before = out@;
        if i > 0 {
            crate::text::push_str(&mut out, sep);
        }
        push_all(&mut out, &ws[i]);
        let ghost t = ps.take(i + 1);
        assert(t.drop_last() =~= ps.take(i as int));
        assert(t.last() == ws@[i as int]@);
        proof {
            if i == 0 {
                assert(t =~= seq![ws@[0]@]);
            }
        }
        assert(out@ =~= join_with(t, sep@));
        i += 1;
    }
    assert(ps.take(ws@.len() as int) =~= ps);
    out
}

fn segment_terms_exec(terms: &mut Vec<Vec<char>>, seg: &Vec<char>, odd: bool)
    ensures
        parts_view(final(terms)@) == parts_view(old(terms)@) + segment_terms(seg@, if odd { 1 } else { 0 }),
{
    let ws = words_exec(seg);
    let ghost wv = parts_view(ws@);
    if ws.len() == 0 {
        assert(parts_view(terms@) + segment_terms(seg@, if odd { 1 } else { 0 }) =~= parts_view(terms@));
        return;
    }
    if odd {
        let inner = join_words(&ws, " ");
        proof {
            reveal_strlit(" ");
        }
        assert(" "@ =~= seq![' ']);
        let mut t: Vec<char> = Vec::new();
        quote(&mut t, &inner);
        assert(t@ =~= quoted_term(join_with(wv, seq![' '])));
        let ghost before = parts_view(terms@);
        push_term(terms, t);
        assert(parts_view(terms@) =~= before + segment_terms(seg@, 1));
    } else {
        let ghost start = parts_view(terms@);
        let mut k: usize = 0;
        while k < ws.len()
            invariant
                k <= ws@.len(),
                wv == parts_view(ws@),
                wv.len() > 0,
                parts_view(terms@) == start + wv.take(k as int).map_values(|w: Seq<char>| quoted_term(w)),
            decreases ws.len() - k,
        {
            let mut t: Vec<char> = Vec::new();
            quote(&mut t, &ws[k]);
            assert(t@ =~= quoted_term(wv[k as int]));
            push_term(terms, t);
            assert(wv.take(k + 1).map_values(|w: Seq<char>| quoted_term(w)) =~= wv.take(k as int).map_values(
                |w: Seq<char>| quoted_term(w),
            ).push(quoted_term(wv[k as int])));
            k += 1;
        }
        assert(wv.take(ws@.len() as int) =~= wv);
        assert(segment_terms(seg@, 0) == wv.map_values(|w: Seq<char>| quoted_term(w)));
    }
}

/// The full-text match expression for free search text (see [`fts_query`]): bare words become
/// OR-joined quoted terms; a quoted span (or the text after an unmatched quote) becomes one
/// phrase; text without any alphanumeric character gives the empty expression.
pub fn to_fts_query(text: &str) -> (r: String)
    ensures
        r@ == fts_query(text@),
{
    let tv = chars_of(text);
    let segs = split_exec(&tv, '"');
    let ghost sv = parts_view(segs@);
    let mut terms: Vec<Vec<char>> = Vec::new();
    let mut i: usize = 0;
    while i < segs.len()
        invariant
            i <= segs@.len(),
            sv == parts_view(segs@),
            parts_view(terms@) == terms_upto(sv, i as int),
        decreases segs.len() - i,
    {
        let odd = i % 2 == 1;
        segment_terms_exec(&mut terms, &segs[i], odd);
        assert(sv[i as int] == segs@[i as int]@);
        assert((if odd { 1int } else { 0int }) % 2 == (i as int) % 2);
        i += 1;
    }
    let out = join_words(&terms, " OR ");
    string_from(&out)
}

/// Every word is a non-empty run of alphanumeric characters.
pub proof fn lemma_words_are_alphanumeric(s: Seq<char>)
    ensures
        forall|k: int| 0 <= k < words(s).len() ==> (#[trigger] words(s)[k]).len() > 0,
        forall|k: int, j: int| 0 <= k < words(s).len() && 0 <= j < words(s)[k].len() ==> char_alnum(
            #[trigger] words(s)[k][j],
        ),
{
    lemma_words_from_alnum(s, 0, seq![], seq![]);
}

proof fn lemma_words_from_alnum(s: Seq<char>, i: int, cur: Seq<char>, acc: Seq<Seq<char>>)
    requires
        forall|j: int| 0 <= j < cur.len() ==> char_alnum(#[trigger] cur[j]),
        forall|k: int| 0 <= k < acc.len() ==> (#[trigger] acc[k]).len() > 0,
        forall|k: int, j: int| 0 <= k < acc.len() && 0 <= j < acc[k].len() ==> char_alnum(#[trigger] acc[k][j]),
    ensures
        forall|k: int| 0 <= k < words_from(s, i, cur, acc).len() ==> (#[trigger] words_from(s, i, cur, acc)[k]).len() > 0,
        forall|k: int, j: int|
            0 <= k < words_from(s, i, cur, acc).len() && 0 <= j < words_from(s, i, cur, acc)[k].len()
                ==> char_alnum(#[trigger] words_from(s, i, cur, acc)[k][j]),
    decreases s.len() - i,
{
    let pushed = if cur.len() > 0 { acc.push(cur) } else { acc };
    assert forall|k: int| 0 <= k < pushed.len() implies (#[trigger] pushed[k]).len() > 0 by {
        if k < acc.len() {
            assert(pushed[k] == acc[k]);
        }
    }
    assert forall|k: int, j: int| 0 <= k < pushed.len() && 0 <= j < pushed[k].len() implies char_alnum(
        #[trigger] pushed[k][j],
    ) by {
        if k < acc.len() {
            assert(pushed[k] == acc[k]);
        }
    }
    if i < 0 || i >= s.len() {
        assert(words_from(s, i, cur, acc) == pushed);
    } else if char_alnum(s[i]) {
        let c2 = cur.push(s[i]);
        assert forall|j: int| 0 <= j < c2.len() implies char_alnum(#[trigger] c2[j]) by {
            if j < cur.len() {
                assert(c2[j] == cur[j]);
            }
        }
        lemma_words_from_alnum(s, i + 1, c2, acc);
        assert(words_from(s, i, cur, acc) == words_from(s, i + 1, c2, acc));
    } else {
        lemma_words_from_alnum(s, i + 1, seq![], pushed);
        assert(words_from(s, i, cur, acc) == words_from(s, i + 1, seq![], pushed));
    }
}

proof fn lemma_terms_keep(segs: Seq<Seq<char>>, n: int, i: int, t: Seq<char>)
    requires
        0 <= i < n <= segs.len(),
        segment_terms(segs[i], i).contains(t),
    ensures
        terms_upto(segs, n).contains(t),
    decreases n,
{
    let prev = terms_upto(segs, n - 1);
    let last = segment_terms(segs[n - 1], n - 1);
    assert(terms_upto(segs, n) == prev + last);
    if i == n - 1 {
        let k = choose|k: int| 0 <= k < last.len() && last[k] == t;
        assert((prev + last)[prev.len() + k] == t);
    } else {
        lemma_terms_keep(segs, n - 1, i, t);
        let k = choose|k: int| 0 <= k < prev.len() && prev[k] == t;
        assert((prev + last)[k] == t);
    }
}

/// The match expression is the OR of its terms, and the terms keep what the user typed: every
/// quoted span (an odd-indexed piece between double quotes) that holds words is one phrase
/// term, its words joined by single spaces; every word outside quotes is a term of its own.
pub proof fn lemma_quoted_spans_are_phrases(text: Seq<char>)
    ensures
        ({
            let segs = split_on(text, '"');
            let terms = terms_upto(segs, segs.len() as int);
            &&& fts_query(text) == join_with(terms, " OR "@)
            &&& forall|i: int|
                0 <= i < segs.len() && i % 2 == 1 && words(#[trigger] segs[i]).len() > 0 ==> terms.contains(
                    seq!['"'] + join_with(words(segs[i]), seq![' ']) + seq!['"'],
                )
            &&& forall|i: int, k: int|
                0 <= i < segs.len() && i % 2 == 0 && 0 <= k < words(segs[i]).len()
                    ==> terms.contains(seq!['"'] + #[trigger] words(segs[i])[k] + seq!['"'])
        }),
{
    let segs = split_on(text, '"');
    let n = segs.len() as int;
    assert forall|i: int|
        0 <= i < segs.len() && i % 2 == 1 && words(#[trigger] segs[i]).len() > 0 implies terms_upto(
        segs,
        n,
    ).contains(quoted_term(join_with(words(segs[i]), seq![' ']))) by {
        let t = quoted_term(join_with(words(segs[i]), seq![' ']));
        assert(segment_terms(segs[i], i)[0] == t);
        lemma_terms_keep(segs, n, i, t);
    }
    assert forall|i: int, k: int|
        0 <= i < segs.len() && i % 2 == 0 && 0 <= k < words(segs[i]).len() implies terms_upto(
        segs,
        n,
    ).contains(quoted_term(#[trigger] words(segs[i])[k])) by {
        let t = quoted_term(words(segs[i])[k]);
        assert(segment_terms(segs[i], i)[k] == t);
        lemma_terms_keep(segs, n, i, t);
    }
}

// ---------------------------------------------------------------------------------------------
// The match expression of texts with a known arrangement of quotes.
// ---------------------------------------------------------------------------------------------

/// Whether `s` holds no double quote.
pub open spec fn quote_free(s: Seq<char>) -> bool {
    forall|k: int| 0 <= k < s.len() ==> #[trigger] s[k] != '"'
}

/// One quoted term per word of `s`, in order.
pub open spec fn word_terms(s: Seq<char>) -> Seq<Seq<char>> {
    words(s).map_values(|w: Seq<char>| seq!['"'] + w + seq!['"'])
}

/// The words of `s` as one quoted phrase, or nothing when `s` has no word.
pub open spec fn phrase_terms(s: Seq<char>) -> Seq<Seq<char>> {
    if words(s).len() == 0 {
        seq![]
    } else {
        seq![seq!['"'] + join_with(words(s), seq![' ']) + seq!['"']]
    }
}

proof fn lemma_find_char_shift(pre: Seq<char>, r: Seq<char>, c: char, j: int)
    requires
        0 <= j <= r.len(),
    ensures
        find_char_from(pre + r, c, j + pre.len()) == find_char_from(r, c, j) + pre.len(),
    decreases r.len() - j,
{
    if j < r.len() {
        assert((pre + r)[j + pre.len()] == r[j]);
        if r[j] != c {
            lemma_find_char_shift(pre, r, c, j + 1);
        }
    }
}

proof fn lemma_split_shift(pre: Seq<char>, r: Seq<char>, c: char, j: int)
    requires
        0 <= j <= r.len(),
    ensures
        split_from(pre + r, c, j + pre.len()) == split_from(r, c, j),
    decreases r.len() + 1 - j,
{
    let s = pre + r;
    let n = pre.len() as int;
    lemma_find_char_shift(pre, r, c, j);
    lemma_find_char_from(r, c, j);
    let f = find_char_from(r, c, j);
    if f >= r.len() {
        assert(s.subrange(j + n, s.len() as int) =~= r.subrange(j, r.len() as int));
    } else {
        assert(s.subrange(j + n, f + n) =~= r.subrange(j, f));
        lemma_split_shift(pre, r, c, f + 1);
    }
}

proof fn lemma_split_quote_free(a: Seq<char>)
    requires
        quote_free(a),
    ensures
        split_on(a, '"') == seq![a],
{
    lemma_find_char_from(a, '"', 0);
    assert(a.subrange(0, a.len() as int) =~= a);
}

proof fn lemma_split_first_quote(a: Seq<char>, r: Seq<char>)
    requires
        quote_free(a),
    ensures
        split_on(a + seq!['"'] + r, '"') == seq![a] + split_on(r, '"'),
{
    let s = a + seq!['"'] + r;
    let n = a.len() as int;
    assert forall|k: int| 0 <= k < n implies #[trigger] s[k] != '"' by {
        assert(s[k] == a[k]);
    }
    assert(s[n] == '"');
    lemma_find_char_from(s, '"', 0);
    assert(find_char_from(s, '"', 0) == n);
    assert(s.subrange(0, n) =~= a);
    assert(s == (a + seq!['"']) + r);
    lemma_split_shift(a + seq!['"'], r, '"', 0);
}

proof fn lemma_segment_terms(x: Seq<char>, i: int)
    ensures
        segment_terms(x, i) == if i % 2 == 1 {
            phrase_terms(x)
        } else {
            word_terms(x)
        },
{
    if words(x).len() == 0 {
        assert(word_terms(x) =~= Seq::<Seq<char>>::empty());
    } else if i % 2 == 1 {
        assert(segment_terms(x, i) =~= phrase_terms(x));
    } else {
        assert(segment_terms(x, i) =~= word_terms(x));
    }
}

/// Text without double quotes: every word is a quoted term of its own, in order, OR-joined.
pub proof fn lemma_unquoted_text(t: Seq<char>)
    requires
        quote_free(t),
    ensures
        fts_query(t) == join_with(word_terms(t), " OR "@),
{
    lemma_split_quote_free(t);
    let segs = split_on(t, '"');
    lemma_segment_terms(t, 0);
    assert(terms_upto(segs, 1) =~= terms_upto(segs, 0) + segment_terms(t, 0));
    assert(terms_upto(segs, 1) =~= word_terms(t));
}

/// Text `a "p" b` (no other double quote): the words of `a`, then the span `p` as one phrase,
/// then the words of `b`, OR-joined.
pub proof fn lemma_quoted_span_between_words(a: Seq<char>, p: Seq<char>, b: Seq<char>)
    requires
        quote_free(a),
        quote_free(p),
        quote_free(b),
    ensures
        fts_query(a + seq!['"'] + p + seq!['"'] + b) == join_with(
            word_terms(a) + phrase_terms(p) + word_terms(b),
            " OR "@,
        ),
{
    let text = a + seq!['"'] + p + seq!['"'] + b;
    lemma_split_quote_free(b);
    lemma_split_first_quote(p, b);
    assert(text == a + seq!['"'] + (p + seq!['"'] + b));
    lemma_split_first_quote(a, p + seq!['"'] + b);
    let segs = split_on(text, '"');
    assert(segs =~= seq![a, p, b]);
    lemma_segment_terms(a, 0);
    lemma_segment_terms(p, 1);
    lemma_segment_terms(b, 2);
    assert(terms_upto(segs, 0) =~= Seq::<Seq<char>>::empty());
    assert(terms_upto(segs, 1) =~= word_terms(a));
    assert(terms_upto(segs, 2) =~= word_terms(a) + phrase_terms(p));
    assert(terms_upto(segs, 3) =~= word_terms(a) + phrase_terms(p) + word_terms(b));
}

/// Text `a "p" b "q" e` (no other double quote): each of the two quoted spans is one phrase,
/// and the words around them are terms of their own, in order, OR-joined.
pub proof fn lemma_two_quoted_spans(a: Seq<char>, p: Seq<char>, b: Seq<char>, q: Seq<char>, e: Seq<char>)
    requires
        quote_free(a),
        quote_free(p),
        quote_free(b),
        quote_free(q),
        quote_free(e),
    ensures
        fts_query(a + seq!['"'] + p + seq!['"'] + b + seq!['"'] + q + seq!['"'] + e) == join_with(
            word_terms(a) + phrase_terms(p) + word_terms(b) + phrase_terms(q) + word_terms(e),
            " OR "@,
        ),
{
    let text = a + seq!['"'] + p + seq!['"'] + b + seq!['"'] + q + seq!['"'] + e;
    lemma_split_quote_free(e);
    lemma_split_first_quote(q, e);
    let r3 = q + seq!['"'] + e;
    lemma_split_first_quote(b, r3);
    let r2 = b + seq!['"'] + r3;
    lemma_split_first_quote(p, r2);
    let r1 = p + seq!['"'] + r2;
    lemma_split_first_quote(a, r1);
    assert(text =~= a + seq!['"'] + r1);
    let segs = split_on(text, '"');
    assert(segs =~= seq![a, p, b, q, e]);
    lemma_segment_terms(a, 0);
    lemma_segment_terms(p, 1);
    lemma_segment_terms(b, 2);
    lemma_segment_terms(q, 3);
    lemma_segment_terms(e, 4);
    assert(terms_upto(segs, 0) =~= Seq::<Seq<char>>::empty());
    assert(terms_upto(segs, 1) =~= word_terms(a));
    assert(terms_upto(segs, 2) =~= word_terms(a) + phrase_terms(p));
    assert(terms_upto(segs, 3) =~= word_terms(a) + phrase_terms(p) + word_terms(b));
    assert(terms_upto(segs, 4) =~= word_terms(a) + phrase_terms(p) + word_terms(b) + phrase_terms(q));
    assert(terms_upto(segs, 5) =~= word_terms(a) + phrase_terms(p) + word_terms(b) + phrase_terms(q)
        + word_terms(e));
}

} // verus!
