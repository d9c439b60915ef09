//! What an edit of a block's metadata writes: merged properties, removed properties, the
//! managed tag set, the title kept or replaced, and a body with text appended. Writing the file
//! and re-indexing it happen around these decisions.

use vstd::prelude::*;
use crate::block::{props_view, strs_view};
use crate::text::{
    chars_of, copy_range, eq_ci, eq_ignore_case, push_all, push_str, string_from, trim,
    trim_bounds, trim_end,
};
use crate::vault::{debug_quoted, debug_text};
use crate::yaml::{is_managed, is_managed_key, is_prop_key, prop_key_ok};

verus! {

/// Whether some member of `s` equals `k` ignoring ASCII case.
pub open spec fn contains_ci(s: Seq<Seq<char>>, k: Seq<char>) -> bool
    decreases s.len(),
{
    s.len() > 0 && (eq_ci(s[0], k) || contains_ci(s.drop_first(), k))
}

/// The index of the first property whose key equals `k` ignoring ASCII case.
pub open spec fn find_ci(ps: Seq<(Seq<char>, Seq<char>)>, k: Seq<char>, i: int) -> Option<int>
    decreases ps.len() - i,
{
    if i < 0 || i >= ps.len() {
        None
    } else if eq_ci(ps[i].0, k) {
        Some(i)
    } else {
        find_ci(ps, k, i + 1)
    }
}

/// `ps` with the value for `k` set to `v`: updated in place (keeping the key's spelling) when
/// the key is present, else appended.
pub open spec fn upsert(ps: Seq<(Seq<char>, Seq<char>)>, k: Seq<char>, v: Seq<char>) -> Seq<(Seq<char>, Seq<char>)> {
    match find_ci(ps, k, 0) {
        Some(i) => ps.update(i, (ps[i].0, v)),
        None => ps.push((k, v)),
    }
}

/// The message refusing a malformed property key.
pub open spec fn invalid_key_message(k: Seq<char>) -> Seq<char> {
    "invalid property key "@ + debug_text(k)
        + ": keys must start with a letter and contain only letters, digits, '_' or '-'"@
}

/// The message refusing a key that mdkb manages itself.
pub open spec fn reserved_key_message(k: Seq<char>) -> Seq<char> {
    "reserved property key "@ + debug_text(k)
        + ": title, tags, and locked are managed by mdkb and cannot be set as properties"@
}

/// Whether `k` (ignoring ASCII case) names one of the timestamps mdkb keeps itself.
pub open spec fn is_timestamp_key(k: Seq<char>) -> bool {
    eq_ci(k, seq!['c', 'r', 'e', 'a', 't', 'e', 'd']) || eq_ci(k, seq!['u', 'p', 'd', 'a', 't', 'e', 'd'])
}

fn is_timestamp_key_exec(k: &Vec<char>) -> (r: bool)
    ensures
        r == is_timestamp_key(k@),
{
    let c: Vec<char> = vec!['c', 'r', 'e', 'a', 't', 'e', 'd'];
    let u: Vec<char> = vec!['u', 'p', 'd', 'a', 't', 'e', 'd'];
    assert(c@ =~= seq!['c', 'r', 'e', 'a', 't', 'e', 'd']);
    assert(u@ =~= seq!['u', 'p', 'd', 'a', 't', 'e', 'd']);
    eq_ignore_case(k, &c) || eq_ignore_case(k, &u)
}

/// The message refusing a timestamp key.
pub open spec fn timestamp_key_message(k: Seq<char>) -> Seq<char> {
    "reserved property key "@ + debug_text(k)
        + ": created and updated are timestamps kept by mdkb and cannot be set as properties"@
}

/// The message refusing an empty value.
pub open spec fn empty_value_message(k: Seq<char>) -> Seq<char> {
    "empty value for property "@ + debug_text(k)
        + ": use unset to remove a property, don't set it empty"@
}

/// Merge `req[i..]` into `merged` (with `seen` the keys already taken from `req`): each key is
/// trimmed; an empty key is skipped; a malformed, managed, timestamp or empty-valued entry
/// refuses the whole merge; a key repeated within `req` keeps its first value.
pub open spec fn merge_from(
    req: Seq<(Seq<char>, Seq<char>)>,
    i: int,
    merged: Seq<(Seq<char>, Seq<char>)>,
    seen: Seq<Seq<char>>,
) -> Result<Seq<(Seq<char>, Seq<char>)>, Seq<char>>
    decreases req.len() - i,
{
    if i < 0 || i >= req.len() {
        Ok(merged)
    } else {
        let k = trim(req[i].0);
        let v = req[i].1;
        if k.len() == 0 {
            merge_from(req, i + 1, merged, seen)
        } else if !prop_key_ok(k) {
            Err(invalid_key_message(k))
        } else if is_managed(k) {
            Err(reserved_key_message(k))
        } else if is_timestamp_key(k) {
            Err(timestamp_key_message(k))
        } else if trim(v).len() == 0 {
            Err(empty_value_message(k))
        } else if contains_ci(seen, k) {
            merge_from(req, i + 1, merged, seen)
        } else {
            merge_from(req, i + 1, upsert(merged, k, v), seen.push(k))
        }
    }
}

fn contains_ci_exec(s: &Vec<Vec<char>>, k: &Vec<char>) -> (r: bool)
    ensures
        r == contains_ci(s@.map_values(|x: Vec<char>| x@), k@),
{
    let ghost sv = s@.map_values(|x: Vec<char>| x@);
    let mut i: usize = 0;
    assert(sv.skip(0) =~= sv);
    while i < s.len()
        invariant
            i <= s@.len(),
            sv == s@.map_values(|x: Vec<char>| x@),
            contains_ci(sv, k@) == contains_ci(sv.skip(i as int), k@),
        decreases s.len() - i,
    {
        let ghost rest = sv.skip(i as int);
        assert(rest[0] == s@[i as int]@);
        assert(rest.drop_first() =~= sv.skip(i + 1));
        if eq_ignore_case(&s[i], k) {
            return true;
        }
        i += 1;
    }
    false
}

fn find_ci_exec(ps: &Vec<(String, String)>, k: &Vec<char>) -> (r: Option<usize>)
    ensures
        match r {
            Some(i) => find_ci(props_view(ps@), k@, 0) == Some(i as int) && i < ps@.len(),
            None => find_ci(props_view(ps@), k@, 0) is None,
        },
{
    let mut i: usize = 0;
    while i < ps.len()
        invariant
            i <= ps@.len(),
            find_ci(props_view(ps@), k@, 0) == find_ci(props_view(ps@), k@, i as int),
        decreases ps.len() - i,
    {
        let kc = chars_of(ps[i].0.as_str());
        assert(props_view(ps@)[i as int].0 == kc@);
        if eq_ignore_case(&kc, k) {
            return Some(i);
        }
        i += 1;
    }
    None
}

fn keyed_message(a: &str, k: &Vec<char>, b: &str) -> (r: String)
    ensures
        r@ == a@ + debug_text(k@) + b@,
{
    let ks = string_from(k);
    let d = debug_quoted(ks.as_str());
    let mut m: Vec<char> = Vec::new();
    push_str(&mut m, a);
    push_str(&mut m, d.as_str());
    push_str(&mut m, b);
    string_from(&m)
}

/// Merge properties into a block's `existing` ones: each requested `(key, value)` is added, or
/// updates the value of the existing key equal to it ignoring ASCII case; every other property
/// is kept, in order. Keys are trimmed; an empty key is skipped; within the request the first
/// value for a key wins. A malformed key, a key mdkb manages (`title`, `tags`, `locked`), a
/// timestamp key (`created`, `updated`) or an empty value refuses the whole request.
pub fn merge_props(existing: &Vec<(String, String)>, req: &[(String, String)]) -> (r: Result<Vec<(String, String)>, String>)
    ensures
        match merge_from(props_view(req@), 0, props_view(existing@), seq![]) {
            Ok(m) => r matches Ok(v) && props_view(v@) == m,
            Err(e) => r matches Err(x) && x@ == e,
        },
{
    let ghost rv = props_view(req@);
    let mut merged = crate::block::clone_props(existing);
    let mut seen: Vec<Vec<char>> = Vec::new();
    let mut i: usize = 0;
    assert(seen@.map_values(|x: Vec<char>| x@) =~= Seq::<Seq<char>>::empty());
    while i < req.len()
        invariant
            i <= req@.len(),
            rv == props_view(req@),
            merge_from(rv, 0, props_view(existing@), seq![]) == merge_from(
                rv,
                i as int,
                props_view(merged@),
                seen@.map_values(|x: Vec<char>| x@),
            ),
        decreases req.len() - i,
    {
        let (kr, v) = &req[i];
        assert(rv[i as int] == (kr@, v@));
        let kv = chars_of(kr.as_str());
        let (a, b) = trim_bounds(&kv, 0, kv.len());
        assert(kv@.subrange(0, kv@.len() as int) =~= kv@);
        let k = copy_range(&kv, a, b);
        if k.len() == 0 {
            i += 1;
            continue;
        }
        if !is_prop_key(&k) {
            return Err(keyed_message(
                "invalid property key ",
                &k,
                ": keys must start with a letter and contain only letters, digits, '_' or '-'",
            ));
        }
        if is_managed_key(&k) {
            return Err(keyed_message(
                "reserved property key ",
                &k,
                ": title, tags, and locked are managed by mdkb and cannot be set as properties",
            ));
        }
        if is_timestamp_key_exec(&k) {
            return Err(keyed_message(
                "reserved property key ",
                &k,
                ": created and updated are timestamps kept by mdkb and cannot be set as properties",
            ));
        }
        let vv = chars_of(v.as_str());
        let (c, d) = trim_bounds(&vv, 0, vv.len());
        assert(vv@.subrange(0, vv@.len() as int) =~= vv@);
        if d == c {
            return Err(keyed_message(
                "empty value for property ",
                &k,
                ": use unset to remove a property, don't set it empty",
            ));
        }
        if contains_ci_exec(&seen, &k) {
            i += 1;
            continue;
        }
        let ghost before = props_view(merged@);
        match find_ci_exec(&merged, &k) {
            Some(j) => {
                let key = merged[j].0.clone();
                merged.set(j, (key, v.clone()));
                assert(props_view(merged@) =~= upsert(before, k@, v@));
            },
            None => {
                merged.push((string_from(&k), v.clone()));
                assert(props_view(merged@) =~= upsert(before, k@, v@));
            },
        }
        let ghost sv = seen@.map_values(|x: Vec<char>| x@);
        seen.push(k);
        assert(seen@.map_values(|x: Vec<char>| x@) =~= sv.push(k@));
        i += 1;
    }
    Ok(merged)
}

/// The properties of `ps` whose key does not equal (ignoring ASCII case) any trimmed `keys`.
pub open spec fn without_keys(ps: Seq<(Seq<char>, Seq<char>)>, keys: Seq<Seq<char>>) -> Seq<(Seq<char>, Seq<char>)>
    decreases ps.len(),
{
    if ps.len() == 0 {
        seq![]
    } else {
        without_keys(ps.drop_last(), keys) + if contains_ci(keys.map_values(|k: Seq<char>| trim(k)), ps.last().0) {
            seq![]
        } else {
            seq![ps.last()]
        }
    }
}

/// Remove the named properties (keys trimmed and compared ignoring ASCII case), keeping every
/// other property in order; keys that are not present are ignored.
pub fn unset_props(existing: &Vec<(String, String)>, keys: &[String]) -> (r: Vec<(String, String)>)
    ensures
        props_view(r@) == without_keys(props_view(existing@), strs_view(keys@)),
{
    let mut drop: Vec<Vec<char>> = Vec::new();
    let mut j: usize = 0;
    while j < keys.len()
        invariant
            j <= keys@.len(),
            drop@.map_values(|x: Vec<char>| x@) == strs_view(keys@).take(j as int).map_values(
                |k: Seq<char>| trim(k),
            ),
        decreases keys.len() - j,
    {
        let kv = chars_of(keys[j].as_str());
        let (a, b) = trim_bounds(&kv, 0, kv.len());
        assert(kv@.subrange(0, kv@.len() as int) =~= kv@);
        let ghost before = drop@.map_values(|x: Vec<char>| x@);
        let tk = copy_range(&kv, a, b);
        assert(tk@ == trim(strs_view(keys@)[j as int]));
        drop.push(tk);
        assert(strs_view(keys@).take(j + 1).map_values(|k: Seq<char>| trim(k)) =~= strs_view(keys@).take(
            j as int,
        ).map_values(|k: Seq<char>| trim(k)).push(trim(strs_view(keys@)[j as int])));
        assert(drop@.map_values(|x: Vec<char>| x@) =~= strs_view(keys@).take(j + 1).map_values(
            |k: Seq<char>| trim(k),
        ));
        j += 1;
    }
    assert(strs_view(keys@).take(keys@.len() as int) =~= strs_view(keys@));
    let mut kept: Vec<(String, String)> = Vec::new();
    let mut i: usize = 0;
    while i < existing.len()
        invariant
            i <= existing@.len(),
            drop@.map_values(|x: Vec<char>| x@) == strs_view(keys@).map_values(|k: Seq<char>| trim(k)),
            props_view(kept@) == without_keys(props_view(existing@).take(i as int), strs_view(keys@)),
        decreases existing.len() - i,
    {
        let ghost t = props_view(existing@).take(i + 1);
        assert(t.drop_last() =~= props_view(existing@).take(i as int));
        assert(t.last() == (existing@[i as int].0@, existing@[i as int].1@));
        let kc = chars_of(existing[i].0.as_str());
        if !contains_ci_exec(&drop, &kc) {
            let ghost before = props_view(kept@);
            kept.push((existing[i].0.clone(), existing[i].1.clone()));
            assert(props_view(kept@) =~= before.push(t.last()));
        }
        i += 1;
    }
    assert(props_view(existing@).take(existing@.len() as int) =~= props_view(existing@));
    kept
}

/// The managed tags `tags` cleaned: trimmed, empty ones dropped, and a tag equal (ignoring
/// ASCII case) to an earlier one dropped.
pub open spec fn clean_tag_set(tags: Seq<Seq<char>>) -> Seq<Seq<char>>
    decreases tags.len(),
{
    if tags.len() == 0 {
        seq![]
    } else {
        let init = clean_tag_set(tags.drop_last());
        let t = trim(tags.last());
        if t.len() == 0 || contains_ci(init, t) {
            init
        } else {
            init.push(t)
        }
    }
}

/// Clean a requested set of managed tags (see [`clean_tag_set`]).
pub fn clean_tags(tags: &[String]) -> (r: Vec<String>)
    ensures
        strs_view(r@) == clean_tag_set(strs_view(tags@)),
{
    let mut clean: Vec<Vec<char>> = Vec::new();
    let mut i: usize = 0;
    while i < tags.len()
        invariant
            i <= tags@.len(),
            clean@.map_values(|x: Vec<char>| x@) == clean_tag_set(strs_view(tags@).take(i as int)),
        decreases tags.len() - i,
    {
        let ghost t = strs_view(tags@).take(i + 1);
        assert(t.drop_last() =~= strs_view(tags@).take(i as int));
        assert(t.last() == tags@[i as int]@);
        let tv = chars_of(tags[i].as_str());
        let (a, b) = trim_bounds(&tv, 0, tv.len());
        assert(tv@.subrange(0, tv@.len() as int) =~= tv@);
        let tt = copy_range(&tv, a, b);
        if tt.len() > 0 && !contains_ci_exec(&clean, &tt) {
            let ghost before = clean@.map_values(|x: Vec<char>| x@);
            clean.push(tt);
            assert(clean@.map_values(|x: Vec<char>| x@) =~= before.push(tt@));
        }
        i += 1;
    }
    assert(strs_view(tags@).take(tags@.len() as int) =~= strs_view(tags@));
    let mut out: Vec<String> = Vec::new();
    let mut k: usize = 0;
    while k < clean.len()
        invariant
            k <= clean@.len(),
            strs_view(out@) == clean@.take(k as int).map_values(|x: Vec<char>| x@),
        decreases clean.len() - k,
    {
        let ghost before = strs_view(out@);
        let st = string_from(&clean[k]);
        out.push(st);
        assert(strs_view(out@) =~= before.push(clean@[k as int]@));
        assert(clean@.take(k + 1).map_values(|x: Vec<char>| x@) =~= clean@.take(k as int).map_values(
            |x: Vec<char>| x@,
        ).push(clean@[k as int]@));
        k += 1;
    }
    assert(clean@.take(clean@.len() as int) =~= clean@);
    out
}

/// The title an edit writes: `None` keeps the existing title, a blank one clears it, any
/// other replaces it.
pub open spec fn title_after(existing: Option<Seq<char>>, requested: Option<Seq<char>>) -> Option<Seq<char>> {
    match requested {
        None => existing,
        Some(t) => if trim(t).len() == 0 {
            None
        } else {
            Some(t)
        },
    }
}

/// Decide the title an edit writes (see [`title_after`]): a body-only edit never drops it.
pub fn resolve_title(existing: &Option<String>, requested: Option<&str>) -> (r: Option<String>)
    ensures
        crate::block::opt_str_view(r) == title_after(
            crate::block::opt_str_view(*existing),
            match requested {
                Some(t) => Some(t@),
                None => None,
            },
        ),
{
    match requested {
        None => crate::block::clone_opt(existing),
        Some(t) => {
            let tv = chars_of(t);
            let (a, b) = trim_bounds(&tv, 0, tv.len());
            assert(tv@.subrange(0, tv@.len() as int) =~= tv@);
            if a == b {
                None
            } else {
                Some(t.to_owned())
            }
        },
    }
}

/// The body after appending `suffix`: the body without trailing whitespace, a blank line, the
/// suffix, and a line break.
pub open spec fn appended(body: Seq<char>, suffix: Seq<char>) -> Seq<char> {
    trim_end(body) + seq!['\n', '\n'] + suffix + seq!['\n']
}

/// Append `suffix` (such as a link directive) to a block body as its own paragraph.
pub fn append_text(body: &str, suffix: &str) -> (r: String)
    ensures
        r@ == appended(body@, suffix@),
{
    let bv = chars_of(body);
    let mut e: usize = bv.len();
    assert(bv@.take(bv@.len() as int) =~= bv@);
    while e > 0 && crate::text::is_whitespace(bv[e - 1])
        invariant
            e <= bv@.len(),
            trim_end(bv@) == trim_end(bv@.take(e as int)),
        decreases e,
    {
        assert(bv@.take(e as int).drop_last() =~= bv@.take(e - 1));
        e -= 1;
    }
    proof {
        if e > 0 {
            assert(bv@.take(e as int).last() == bv@[e - 1]);
        }
    }
    let mut out = copy_range(&bv, 0, e);
    assert(out@ =~= bv@.take(e as int));
    out.push('\n');
    out.push('\n');
    push_str(&mut out, suffix);
    out.push('\n');
    string_from(&out)
}

/// The result of a reconcile pass.
#[derive(Debug, Clone, Default, PartialEq, Eq)]
pub struct SyncReport {
    /// Block ids added or updated.
    pub changed: Vec<String>,
    /// Block ids removed.
    pub removed: Vec<String>,
    /// Cloud-sync conflict files detected (surfaced, not indexed).
    pub conflicts: Vec<String>,
}

impl SyncReport {
    /// Whether nothing changed (conflicts are informational, not a change).
    pub fn is_empty(&self) -> (r: bool)
        ensures
            r == (self.changed@.len() == 0 && self.removed@.len() == 0),
    {
        self.changed.len() == 0 && self.removed.len() == 0
    }
}

// ---------------------------------------------------------------------------------------------
// Laws.
// ---------------------------------------------------------------------------------------------

proof fn lemma_contains_ci(s: Seq<Seq<char>>, k: Seq<char>)
    ensures
        contains_ci(s, k) <==> exists|i: int| 0 <= i < s.len() && eq_ci(#[trigger] s[i], k),
    decreases s.len(),
{
    if s.len() > 0 {
        lemma_contains_ci(s.drop_first(), k);
        if contains_ci(s.drop_first(), k) {
            let i = choose|i: int| 0 <= i < s.drop_first().len() && eq_ci(#[trigger] s.drop_first()[i], k);
            assert(s[i + 1] == s.drop_first()[i]);
        }
        if exists|i: int| 0 <= i < s.len() && eq_ci(#[trigger] s[i], k) {
            let i = choose|i: int| 0 <= i < s.len() && eq_ci(#[trigger] s[i], k);
            if i > 0 {
                assert(s.drop_first()[i - 1] == s[i]);
            }
        }
    }
}

proof fn lemma_find_ci(ps: Seq<(Seq<char>, Seq<char>)>, k: Seq<char>, i: int)
    requires
        0 <= i,
    ensures
        find_ci(ps, k, i) matches Some(j) ==> i <= j < ps.len() && eq_ci(ps[j].0, k),
    decreases ps.len() - i,
{
    if i < ps.len() && !eq_ci(ps[i].0, k) {
        lemma_find_ci(ps, k, i + 1);
    }
}

/// The trimmed keys of the first `n` requested properties.
pub open spec fn requested_keys(req: Seq<(Seq<char>, Seq<char>)>, n: int) -> Seq<Seq<char>> {
    req.take(n).map_values(|p: (Seq<char>, Seq<char>)| trim(p.0))
}

proof fn lemma_merge_keeps(
    req: Seq<(Seq<char>, Seq<char>)>,
    i: int,
    merged: Seq<(Seq<char>, Seq<char>)>,
    seen: Seq<Seq<char>>,
    existing: Seq<(Seq<char>, Seq<char>)>,
)
    requires
        0 <= i <= req.len(),
        merged.len() >= existing.len(),
        forall|j: int|
            0 <= j < existing.len() ==> (#[trigger] merged[j]).0 == existing[j].0 && (merged[j].1
                == existing[j].1 || contains_ci(requested_keys(req, i), existing[j].0)),
    ensures
        merge_from(req, i, merged, seen) matches Ok(m) ==> m.len() >= existing.len() && forall|j: int|
            0 <= j < existing.len() ==> (#[trigger] m[j]).0 == existing[j].0 && (m[j].1
                == existing[j].1 || contains_ci(requested_keys(req, req.len() as int), existing[j].0)),
    decreases req.len() - i,
{
    if i < req.len() {
        let k = trim(req[i].0);
        let v = req[i].1;
        let rk = requested_keys(req, i + 1);
        assert(rk =~= requested_keys(req, i).push(k));
        assert forall|x: Seq<char>| contains_ci(requested_keys(req, i), x) implies contains_ci(rk, x) by {
            lemma_contains_ci(requested_keys(req, i), x);
            lemma_contains_ci(rk, x);
            let m = choose|m: int| 0 <= m < requested_keys(req, i).len() && eq_ci(#[trigger] requested_keys(req, i)[m], x);
            assert(rk[m] == requested_keys(req, i)[m]);
        }
        if k.len() == 0 || contains_ci(seen, k) {
            lemma_merge_keeps(req, i + 1, merged, seen, existing);
        } else if prop_key_ok(k) && !is_managed(k) && !is_timestamp_key(k) && trim(v).len() != 0 {
            let up = upsert(merged, k, v);
            lemma_find_ci(merged, k, 0);
            assert forall|j: int| 0 <= j < existing.len() implies (#[trigger] up[j]).0 == existing[j].0
                && (up[j].1 == existing[j].1 || contains_ci(rk, existing[j].0)) by {
                match find_ci(merged, k, 0) {
                    Some(f) => {
                        if j == f {
                            lemma_contains_ci(rk, existing[j].0);
                            assert(rk[i] == k);
                            assert(eq_ci(rk[i], existing[j].0));
                        } else {
                            assert(up[j] == merged[j]);
                        }
                    },
                    None => {
                        assert(up[j] == merged[j]);
                    },
                }
            }
            lemma_merge_keeps(req, i + 1, up, seen.push(k), existing);
        }
    }
}

/// Setting properties is a merge, never a replace: every property the block had keeps its key
/// and position, and keeps its value unless a requested key equals it ignoring case.
pub proof fn lemma_merge_keeps_existing(req: Seq<(Seq<char>, Seq<char>)>, existing: Seq<(Seq<char>, Seq<char>)>)
    ensures
        merge_from(req, 0, existing, seq![]) matches Ok(m) ==> m.len() >= existing.len() && forall|j: int|
            0 <= j < existing.len() ==> (#[trigger] m[j]).0 == existing[j].0 && (m[j].1
                == existing[j].1 || contains_ci(requested_keys(req, req.len() as int), existing[j].0)),
{
    lemma_merge_keeps(req, 0, existing, seq![], existing);
}

/// Unsetting the same keys twice is the same as once.
pub proof fn lemma_unset_idempotent(ps: Seq<(Seq<char>, Seq<char>)>, keys: Seq<Seq<char>>)
    ensures
        without_keys(without_keys(ps, keys), keys) == without_keys(ps, keys),
    decreases ps.len(),
{
    if ps.len() > 0 {
        lemma_unset_idempotent(ps.drop_last(), keys);
        let w = without_keys(ps.drop_last(), keys);
        let d = keys.map_values(|k: Seq<char>| trim(k));
        if !contains_ci(d, ps.last().0) {
            let ww = w.push(ps.last());
            assert(ww.drop_last() =~= w);
            assert(without_keys(ww, keys) =~= without_keys(w, keys).push(ps.last()));
        }
    }
}

/// A cleaned tag set holds no empty tag and no two tags equal ignoring ASCII case.
pub proof fn lemma_clean_tags_distinct(tags: Seq<Seq<char>>)
    ensures
        forall|i: int| 0 <= i < clean_tag_set(tags).len() ==> (#[trigger] clean_tag_set(tags)[i]).len() > 0,
        forall|i: int, j: int|
            0 <= i < j < clean_tag_set(tags).len() ==> !eq_ci(
                #[trigger] clean_tag_set(tags)[i],
                #[trigger] clean_tag_set(tags)[j],
            ),
    decreases tags.len(),
{
    if tags.len() > 0 {
        lemma_clean_tags_distinct(tags.drop_last());
        let init = clean_tag_set(tags.drop_last());
        let t = trim(tags.last());
        lemma_contains_ci(init, t);
        if !(t.len() == 0 || contains_ci(init, t)) {
            let r = init.push(t);
            assert forall|i: int, j: int| 0 <= i < j < r.len() implies !eq_ci(#[trigger] r[i], #[trigger] r[j]) by {
                if j == init.len() {
                    assert(r[i] == init[i]);
                } else {
                    assert(r[i] == init[i] && r[j] == init[j]);
                }
            }
            assert forall|i: int| 0 <= i < r.len() implies (#[trigger] r[i]).len() > 0 by {
                if i < init.len() {
                    assert(r[i] == init[i]);
                }
            }
        }
    }
}

proof fn lemma_find_ci_none(ps: Seq<(Seq<char>, Seq<char>)>, k: Seq<char>, i: int)
    requires
        0 <= i,
        find_ci(ps, k, i) is None,
    ensures
        forall|j: int| i <= j < ps.len() ==> !eq_ci(#[trigger] ps[j].0, k),
    decreases ps.len() - i,
{
    if i < ps.len() {
        lemma_find_ci_none(ps, k, i + 1);
    }
}

/// Whether `k` (trimmed) may be set to `v`: a well-formed key that is neither managed nor a
/// timestamp, and a value that is not blank.
pub open spec fn settable(k: Seq<char>, v: Seq<char>) -> bool {
    &&& trim(k).len() > 0
    &&& prop_key_ok(trim(k))
    &&& !is_managed(trim(k))
    &&& !is_timestamp_key(trim(k))
    &&& trim(v).len() > 0
}

/// Setting one property reads back: the result holds the key (matched ignoring ASCII case)
/// with the requested value; every other property is kept where it was; a key the block did
/// not have is added at the end.
pub proof fn lemma_set_prop_reads_back(existing: Seq<(Seq<char>, Seq<char>)>, k: Seq<char>, v: Seq<char>)
    requires
        settable(k, v),
    ensures
        merge_from(seq![(k, v)], 0, existing, seq![]) matches Ok(m) && {
            &&& exists|j: int| 0 <= j < m.len() && eq_ci(#[trigger] m[j].0, trim(k)) && m[j].1 == v
            &&& forall|j: int|
                0 <= j < existing.len() && !eq_ci(#[trigger] existing[j].0, trim(k)) ==> m[j] == existing[j]
            &&& (exists|j: int| 0 <= j < existing.len() && eq_ci(#[trigger] existing[j].0, trim(k))) ==> m.len()
                == existing.len()
            &&& !(exists|j: int| 0 <= j < existing.len() && eq_ci(#[trigger] existing[j].0, trim(k))) ==> m
                == existing.push((trim(k), v))
        },
{
    let tk = trim(k);
    let req = seq![(k, v)];
    assert(req[0] == (k, v));
    assert(!contains_ci(Seq::<Seq<char>>::empty(), tk));
    let up = upsert(existing, tk, v);
    assert(merge_from(req, 0, existing, seq![]) == merge_from(req, 1, up, seq![tk]));
    assert(merge_from(req, 1, up, seq![tk]) == Ok::<Seq<(Seq<char>, Seq<char>)>, Seq<char>>(up));
    lemma_find_ci(existing, tk, 0);
    match find_ci(existing, tk, 0) {
        Some(i) => {
            assert(up[i] == (existing[i].0, v));
            assert(eq_ci(up[i].0, tk));
        },
        None => {
            lemma_find_ci_none(existing, tk, 0);
            assert(up[existing.len() as int] == (tk, v));
            assert(eq_ci(tk, tk));
            assert(eq_ci(up[existing.len() as int].0, tk));
        },
    }
}

/// When a request names the same key twice (ignoring ASCII case), the first value is the one
/// set; the second is ignored.
pub proof fn lemma_first_requested_value_wins(
    existing: Seq<(Seq<char>, Seq<char>)>,
    k1: Seq<char>,
    v1: Seq<char>,
    k2: Seq<char>,
    v2: Seq<char>,
)
    requires
        settable(k1, v1),
        settable(k2, v2),
        eq_ci(trim(k1), trim(k2)),
    ensures
        merge_from(seq![(k1, v1), (k2, v2)], 0, existing, seq![]) == merge_from(seq![(k1, v1)], 0, existing, seq![]),
{
    let t1 = trim(k1);
    let r2 = seq![(k1, v1), (k2, v2)];
    let r1 = seq![(k1, v1)];
    assert(r2[0] == (k1, v1) && r2[1] == (k2, v2) && r1[0] == (k1, v1));
    assert(!contains_ci(Seq::<Seq<char>>::empty(), t1));
    let up = upsert(existing, t1, v1);
    assert(contains_ci(seq![t1], trim(k2)));
    assert(merge_from(r2, 2, up, seq![t1]) == Ok::<Seq<(Seq<char>, Seq<char>)>, Seq<char>>(up));
    assert(merge_from(r2, 1, up, seq![t1]) == merge_from(r2, 2, up, seq![t1]));
    assert(merge_from(r2, 0, existing, seq![]) == merge_from(r2, 1, up, seq![t1]));
    assert(merge_from(r1, 1, up, seq![t1]) == Ok::<Seq<(Seq<char>, Seq<char>)>, Seq<char>>(up));
    assert(merge_from(r1, 0, existing, seq![]) == merge_from(r1, 1, up, seq![t1]));
}

/// Whether `key` equals one of `keys`, trimmed, ignoring ASCII case.
pub open spec fn named_by(keys: Seq<Seq<char>>, key: Seq<char>) -> bool {
    exists|i: int| 0 <= i < keys.len() && eq_ci(trim(#[trigger] keys[i]), key)
}

/// Unsetting removes exactly the named properties: what remains are the properties whose key
/// no requested key names (trimmed, ignoring ASCII case), all of them, in their order.
pub proof fn lemma_unset_removes_exactly(ps: Seq<(Seq<char>, Seq<char>)>, keys: Seq<Seq<char>>)
    ensures
        without_keys(ps, keys) == ps.filter(|p: (Seq<char>, Seq<char>)| !named_by(keys, p.0)),
    decreases ps.len(),
{
    let d = keys.map_values(|k: Seq<char>| trim(k));
    if ps.len() > 0 {
        lemma_unset_removes_exactly(ps.drop_last(), keys);
        lemma_contains_ci(d, ps.last().0);
        let p = ps.last();
        assert(contains_ci(d, p.0) <==> named_by(keys, p.0)) by {
            if contains_ci(d, p.0) {
                let i = choose|i: int| 0 <= i < d.len() && eq_ci(#[trigger] d[i], p.0);
                assert(d[i] == trim(keys[i]));
            }
            if named_by(keys, p.0) {
                let i = choose|i: int| 0 <= i < keys.len() && eq_ci(trim(#[trigger] keys[i]), p.0);
                assert(d[i] == trim(keys[i]));
            }
        }
        let f = |p: (Seq<char>, Seq<char>)| !named_by(keys, p.0);
        assert(ps.filter(f) == ps.drop_last().filter(f) + if f(p) { seq![p] } else { seq![] }) by {
            reveal(Seq::filter);
            assert(ps.drop_last() =~= ps.drop_last());
            if f(p) {
                assert(ps.drop_last().filter(f).push(p) =~= ps.drop_last().filter(f) + seq![p]);
            } else {
                assert(ps.drop_last().filter(f) =~= ps.drop_last().filter(f) + Seq::<(Seq<char>, Seq<char>)>::empty());
            }
        }
    } else {
        assert(ps.filter(|p: (Seq<char>, Seq<char>)| !named_by(keys, p.0)) =~= Seq::<(Seq<char>, Seq<char>)>::empty()) by {
            reveal(Seq::filter);
        }
    }
}

} // verus!
