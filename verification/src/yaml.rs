//! The YAML scalar subset that block frontmatter uses: plain scalars, double-quoted scalars with
//! `\\`, `\"`, `\n` and `\t` escapes, and single-quoted scalars with `''` for a quote.

use vstd::prelude::*;
use crate::text::{
    chars_of, eq_ci, eq_ignore_case, is_ws, replace_all, replace_chars, trim, trim_bounds,
};

verus! {

/// The escape character for the character after a backslash.
pub open spec fn unescaped(c: char) -> char {
    if c == 'n' {
        '\n'
    } else if c == 't' {
        '\t'
    } else {
        c
    }
}

/// Undo double-quoted escapes: `\x` becomes the character `x` stands for; a lone trailing
/// backslash is dropped.
pub open spec fn unescape(s: Seq<char>) -> Seq<char>
    decreases s.len(),
{
    if s.len() == 0 {
        s
    } else if s[0] == '\\' {
        if s.len() == 1 {
            seq![]
        } else {
            seq![unescaped(s[1])] + unescape(s.skip(2))
        }
    } else {
        seq![s[0]] + unescape(s.skip(1))
    }
}

/// Parse a scalar as the frontmatter writer produces it: after trimming, a double-quoted
/// string (escapes undone), a single-quoted string (`''` becomes `'`), or the plain text.
pub open spec fn scalar_value(raw: Seq<char>) -> Seq<char> {
    let r = trim(raw);
    if r.len() >= 2 && r[0] == '"' && r.last() == '"' {
        unescape(r.subrange(1, r.len() - 1))
    } else if r.len() >= 2 && r[0] == '\'' && r.last() == '\'' {
        replace_all(r.subrange(1, r.len() - 1), seq!['\'', '\''], seq!['\''])
    } else {
        r
    }
}

/// Unicode general category `Cc` (`char::is_control`).
pub open spec fn is_control(c: char) -> bool {
    (c as u32) < 0x20 || (0x7f <= (c as u32) && (c as u32) < 0xa0)
}

/// Characters that may not begin a plain YAML scalar.
pub open spec fn is_indicator(c: char) -> bool {
    seq!['-', '?', ':', ',', '[', ']', '{', '}', '#', '&', '*', '!', '|', '>', '\'', '"', '%', '@', '`'].contains(c)
}

/// Whether `p` occurs in `s` at some index.
pub open spec fn contains_seq(s: Seq<char>, p: Seq<char>) -> bool {
    exists|i: int| 0 <= i && i + p.len() <= s.len() && #[trigger] s.subrange(i, i + p.len()) == p
}

/// Whether `s` can be written as a plain (unquoted) YAML scalar without ambiguity.
pub open spec fn plain_safe(s: Seq<char>) -> bool {
    &&& s.len() > 0
    &&& s == trim(s)
    &&& !is_indicator(s[0])
    &&& !contains_seq(s, seq![':', ' '])
    &&& s.last() != ':'
    &&& !contains_seq(s, seq![' ', '#'])
    &&& forall|i: int| 0 <= i < s.len() ==> !is_control(#[trigger] s[i])
}

/// The escaped form of one character inside a double-quoted scalar.
pub open spec fn escaped(c: char) -> Seq<char> {
    if c == '\\' {
        seq!['\\', '\\']
    } else if c == '"' {
        seq!['\\', '"']
    } else if c == '\n' {
        seq!['\\', 'n']
    } else if c == '\t' {
        seq!['\\', 't']
    } else {
        seq![c]
    }
}

/// `s` with every character escaped for a double-quoted scalar.
pub open spec fn escape(s: Seq<char>) -> Seq<char>
    decreases s.len(),
{
    if s.len() == 0 {
        s
    } else {
        escape(s.drop_last()) + escaped(s.last())
    }
}

/// The YAML text the writer emits for the value `s`: plain when unambiguous, else quoted.
pub open spec fn yaml_text(s: Seq<char>) -> Seq<char> {
    if plain_safe(s) {
        s
    } else {
        seq!['"'] + escape(s) + seq!['"']
    }
}

fn control(c: char) -> (r: bool)
    ensures
        r == is_control(c),
{
    (c as u32) < 0x20 || (0x7f <= (c as u32) && (c as u32) < 0xa0)
}

fn indicator(c: char) -> (r: bool)
    ensures
        r == is_indicator(c),
{
    let r = c == '-' || c == '?' || c == ':' || c == ',' || c == '[' || c == ']' || c == '{' || c
        == '}' || c == '#' || c == '&' || c == '*' || c == '!' || c == '|' || c == '>' || c
        == '\'' || c == '"' || c == '%' || c == '@' || c == '`';
    proof {
        let set = seq![
            '-',
            '?',
            ':',
            ',',
            '[',
            ']',
            '{',
            '}',
            '#',
            '&',
            '*',
            '!',
            '|',
            '>',
            '\'',
            '"',
            '%',
            '@',
            '`',
        ];
        if r {
            if c == '-' { assert(set[0] == c); }
            if c == '?' { assert(set[1] == c); }
            if c == ':' { assert(set[2] == c); }
            if c == ',' { assert(set[3] == c); }
            if c == '[' { assert(set[4] == c); }
            if c == ']' { assert(set[5] == c); }
            if c == '{' { assert(set[6] == c); }
            if c == '}' { assert(set[7] == c); }
            if c == '#' { assert(set[8] == c); }
            if c == '&' { assert(set[9] == c); }
            if c == '*' { assert(set[10] == c); }
            if c == '!' { assert(set[11] == c); }
            if c == '|' { assert(set[12] == c); }
            if c == '>' { assert(set[13] == c); }
            if c == '\'' { assert(set[14] == c); }
            if c == '"' { assert(set[15] == c); }
            if c == '%' { assert(set[16] == c); }
            if c == '@' { assert(set[17] == c); }
            if c == '`' { assert(set[18] == c); }
        } else {
            assert(!set.contains(c));
        }
    }
    r
}

/// Whether the two-character pattern `a b` occurs in `s`.
fn contains_pair(s: &Vec<char>, a: char, b: char) -> (r: bool)
    ensures
        r == contains_seq(s@, seq![a, b]),
{
    let mut i: usize = 0;
    while i < s.len() && i + 1 < s.len()
        invariant
            i <= s@.len(),
            forall|k: int| 0 <= k < i && k + 1 < s@.len() ==> !(#[trigger] s@[k] == a && s@[k + 1] == b),
        decreases s.len() - i,
    {
        if s[i] == a && s[i + 1] == b {
            assert(s@.subrange(i as int, i + 2) =~= seq![a, b]);
            return true;
        }
        i += 1;
    }
    proof {
        if contains_seq(s@, seq![a, b]) {
            let k = choose|k: int|
                0 <= k && k + 2 <= s@.len() && #[trigger] s@.subrange(k, k + 2) == seq![a, b];
            assert(s@.subrange(k, k + 2)[0] == a);
            assert(s@.subrange(k, k + 2)[1] == b);
        }
    }
    false
}

/// Whether `s` can be written as a plain YAML scalar.
pub fn is_plain_yaml_safe(s: &Vec<char>) -> (r: bool)
    ensures
        r == plain_safe(s@),
{
    if s.len() == 0 {
        return false;
    }
    let (a, b) = trim_bounds(s, 0, s.len());
    assert(s@.subrange(0, s@.len() as int) =~= s@);
    if a != 0 || b != s.len() {
        proof {
            if s@ == trim(s@) {
                assert(s@.subrange(a as int, b as int).len() == s@.len());
            }
        }
        return false;
    }
    assert(s@.subrange(0, s@.len() as int) =~= s@);
    if indicator(s[0]) {
        return false;
    }
    if contains_pair(s, ':', ' ') || s[s.len() - 1] == ':' || contains_pair(s, ' ', '#') {
        return false;
    }
    let mut i: usize = 0;
    while i < s.len()
        invariant
            i <= s@.len(),
            forall|k: int| 0 <= k < i ==> !is_control(#[trigger] s@[k]),
        decreases s.len() - i,
    {
        if control(s[i]) {
            return false;
        }
        i += 1;
    }
    true
}

/// Serialize `s` as a YAML scalar: plain when unambiguous, otherwise double-quoted with `\`,
/// `"`, newline and tab escaped.
pub fn yaml_scalar(s: &Vec<char>) -> (r: Vec<char>)
    ensures
        r@ == yaml_text(s@),
{
    if is_plain_yaml_safe(s) {
        let r = crate::text::copy_range(s, 0, s.len());
        assert(s@.subrange(0, s@.len() as int) =~= s@);
        return r;
    }
    let mut out: Vec<char> = Vec::new();
    out.push('"');
    let mut i: usize = 0;
    while i < s.len()
        invariant
            i <= s@.len(),
            out@ == seq!['"'] + escape(s@.take(i as int)),
        decreases s.len() - i,
    {
        let c = s[i];
        let ghost before = out@;
        assert(s@.take(i + 1).drop_last() =~= s@.take(i as int));
        if c == '\\' {
            out.push('\\');
            out.push('\\');
        } else if c == '"' {
            out.push('\\');
            out.push('"');
        } else if c == '\n' {
            out.push('\\');
            out.push('n');
        } else if c == '\t' {
            out.push('\\');
            out.push('t');
        } else {
            out.push(c);
        }
        assert(out@ =~= before + escaped(c));
        i += 1;
    }
    assert(s@.take(i as int) =~= s@);
    out.push('"');
    out
}

/// Parse a scalar value (see [`scalar_value`]).
pub fn parse_scalar(s: &Vec<char>, lo: usize, hi: usize) -> (r: Vec<char>)
    requires
        lo <= hi <= s@.len(),
    ensures
        r@ == scalar_value(s@.subrange(lo as int, hi as int)),
{
    let (a, b) = trim_bounds(s, lo, hi);
    let ghost t = s@.subrange(a as int, b as int);
    if b - a >= 2 && s[a] == '"' && s[b - 1] == '"' {
        let mut out: Vec<char> = Vec::new();
        let mut i = a + 1;
        let ghost inner = s@.subrange(a + 1, b - 1);
        assert(t.subrange(1, t.len() - 1) =~= inner);
        assert(s@.subrange(i as int, b - 1) =~= inner);
        while i < b - 1
            invariant
                a + 1 <= i <= b - 1,
                b <= s@.len(),
                out@ + unescape(s@.subrange(i as int, b - 1)) == unescape(inner),
            decreases b - i,
        {
            let ghost rest = s@.subrange(i as int, b - 1);
            let ghost before = out@;
            if s[i] == '\\' {
                if i + 1 < b - 1 {
                    let c = s[i + 1];
                    let u = if c == 'n' {
                        '\n'
                    } else if c == 't' {
                        '\t'
                    } else {
                        c
                    };
                    out.push(u);
                    assert(rest.skip(2) =~= s@.subrange(i + 2, b - 1));
                    assert(before.push(u) + unescape(rest.skip(2)) =~= before + (seq![u] + unescape(rest.skip(2))));
                    i += 2;
                } else {
                    assert(unescape(rest) =~= Seq::<char>::empty());
                    i += 1;
                    assert(unescape(s@.subrange(i as int, b - 1)) =~= Seq::<char>::empty());
                }
            } else {
                out.push(s[i]);
                assert(rest.skip(1) =~= s@.subrange(i + 1, b - 1));
                assert(before.push(s@[i as int]) + unescape(rest.skip(1)) =~= before + (seq![s@[i as int]] + unescape(rest.skip(1))));
                i += 1;
            }
        }
        assert(out@ + unescape(s@.subrange(i as int, b - 1)) =~= out@);
        out
    } else if b - a >= 2 && s[a] == '\'' && s[b - 1] == '\'' {
        let inner = crate::text::copy_range(s, a + 1, b - 1);
        assert(t.subrange(1, t.len() - 1) =~= inner@);
        let q2: Vec<char> = vec!['\'', '\''];
        let q1: Vec<char> = vec!['\''];
        assert(q2@ =~= seq!['\'', '\'']);
        assert(q1@ =~= seq!['\'']);
        replace_chars(&inner, &q2, &q1)
    } else {
        crate::text::copy_range(s, a, b)
    }
}

/// The frontmatter keys the block model manages itself.
pub open spec fn is_managed(key: Seq<char>) -> bool {
    eq_ci(key, seq!['t', 'i', 't', 'l', 'e']) || eq_ci(key, seq!['t', 'a', 'g', 's']) || eq_ci(
        key,
        seq!['l', 'o', 'c', 'k', 'e', 'd'],
    )
}

/// A well-formed property key: an ASCII letter, then ASCII letters, digits, `_` or `-`.
pub open spec fn prop_key_ok(key: Seq<char>) -> bool {
    &&& key.len() > 0
    &&& crate::text::is_ascii_alpha(key[0])
    &&& forall|i: int|
        1 <= i < key.len() ==> crate::text::is_ascii_alnum(#[trigger] key[i]) || key[i] == '_'
            || key[i] == '-'
}

/// Whether `key` (ignoring ASCII case) is `title`, `tags` or `locked`.
pub fn is_managed_key(key: &Vec<char>) -> (r: bool)
    ensures
        r == is_managed(key@),
{
    let t: Vec<char> = vec!['t', 'i', 't', 'l', 'e'];
    let g: Vec<char> = vec!['t', 'a', 'g', 's'];
    let l: Vec<char> = vec!['l', 'o', 'c', 'k', 'e', 'd'];
    assert(t@ =~= seq!['t', 'i', 't', 'l', 'e']);
    assert(g@ =~= seq!['t', 'a', 'g', 's']);
    assert(l@ =~= seq!['l', 'o', 'c', 'k', 'e', 'd']);
    eq_ignore_case(key, &t) || eq_ignore_case(key, &g) || eq_ignore_case(key, &l)
}

/// Whether `key` is a well-formed property key.
pub fn is_prop_key(key: &Vec<char>) -> (r: bool)
    ensures
        r == prop_key_ok(key@),
{
    if key.len() == 0 {
        return false;
    }
    let c0 = key[0];
    if !(('A' <= c0 && c0 <= 'Z') || ('a' <= c0 && c0 <= 'z')) {
        return false;
    }
    let mut i: usize = 1;
    while i < key.len()
        invariant
            1 <= i <= key@.len(),
            forall|k: int|
                1 <= k < i ==> crate::text::is_ascii_alnum(#[trigger] key@[k]) || key@[k] == '_'
                    || key@[k] == '-',
        decreases key.len() - i,
    {
        let c = key[i];
        if !(('A' <= c && c <= 'Z') || ('a' <= c && c <= 'z') || ('0' <= c && c <= '9') || c
            == '_' || c == '-') {
            return false;
        }
        i += 1;
    }
    true
}

// ---------------------------------------------------------------------------------------------
// The scalar round trip.
// ---------------------------------------------------------------------------------------------

proof fn lemma_unescape_escape(s: Seq<char>, rest: Seq<char>)
    ensures
        unescape(escape(s) + rest) == s + unescape(rest),
    decreases s.len(),
{
    if s.len() == 0 {
        assert(escape(s) + rest =~= rest);
        assert(s + unescape(rest) =~= unescape(rest));
    } else {
        let init = s.drop_last();
        let c = s.last();
        assert(escape(s) + rest =~= escape(init) + (escaped(c) + rest));
        lemma_unescape_escape(init, escaped(c) + rest);
        let e = escaped(c) + rest;
        if c == '\\' || c == '"' || c == '\n' || c == '\t' {
            assert(e[0] == '\\');
            assert(e.skip(2) =~= rest);
        } else {
            assert(e[0] == c);
            assert(e.skip(1) =~= rest);
        }
        assert(unescape(e) =~= seq![c] + unescape(rest));
        assert(init + (seq![c] + unescape(rest)) =~= s + unescape(rest));
    }
}

/// Reading back what the writer emits for a value gives the value: `scalar_value` inverts
/// `yaml_text`.
pub proof fn lemma_yaml_round_trip(s: Seq<char>)
    ensures
        scalar_value(yaml_text(s)) == s,
{
    if plain_safe(s) {
        // A plain-safe value is already trimmed and starts with neither quote.
        assert(trim(s) == s);
        assert(is_indicator(s[0]) == false);
        assert(seq!['-', '?', ':', ',', '[', ']', '{', '}', '#', '&', '*', '!', '|', '>', '\'', '"', '%', '@', '`'][15] == '"');
        assert(seq!['-', '?', ':', ',', '[', ']', '{', '}', '#', '&', '*', '!', '|', '>', '\'', '"', '%', '@', '`'][14] == '\'');
    } else {
        let q = seq!['"'] + escape(s) + seq!['"'];
        lemma_trim_quoted(escape(s));
        assert(q.subrange(1, q.len() - 1) =~= escape(s));
        lemma_unescape_escape(s, seq![]);
        assert(escape(s) + Seq::<char>::empty() =~= escape(s));
        assert(s + unescape(Seq::<char>::empty()) =~= s);
    }
}

/// A double-quoted text has no surrounding whitespace.
proof fn lemma_trim_quoted(e: Seq<char>)
    ensures
        trim(seq!['"'] + e + seq!['"']) == seq!['"'] + e + seq!['"'],
{
    let q = seq!['"'] + e + seq!['"'];
    assert(q[0] == '"');
    assert(!is_ws(q[0]));
    assert(crate::text::trim_start(q) == q);
    assert(q.last() == '"');
    assert(crate::text::trim_end(q) == q);
}

} // verus!
