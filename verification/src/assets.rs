//! Files under the vault's `assets/` directory: the name an import lands under, which assets
//! no block references, and which paths a removal may touch. Listing, writing and deleting the
//! files happen outside.

use vstd::prelude::*;
use crate::block::strs_view;
use crate::text::{chars_of, copy_range, has_prefix_at, lex_lt, push_str, starts_with, string_from};
use crate::vault::{safe_rel, safe_relative_path};
use crate::view::{decimal, push_decimal};

verus! {

/// The directory, relative to the vault, that holds assets.
pub const ASSETS_DIR: &'static str = "assets";

/// The index of the last `.` in `s`, if any.
pub open spec fn last_dot(s: Seq<char>, n: int) -> Option<int>
    decreases n,
{
    if n <= 0 || n > s.len() {
        None
    } else if s[n - 1] == '.' {
        Some(n - 1)
    } else {
        last_dot(s, n - 1)
    }
}

/// The `n`-th name an import of the (already sanitised) `safe` tries: `safe` itself, then
/// `stem-n.ext` (split at the last `.`), or `safe-n` when it has no `.`.
pub open spec fn candidate_name(safe: Seq<char>, n: nat) -> Seq<char> {
    if n == 0 {
        safe
    } else {
        match last_dot(safe, safe.len() as int) {
            Some(d) => safe.take(d) + seq!['-'] + decimal(n) + seq!['.'] + safe.skip(d + 1),
            None => safe + seq!['-'] + decimal(n),
        }
    }
}

/// The `n`-th file name to try for an import named `safe` (see [`candidate_name`]); the first
/// that does not exist yet is used, so an import never overwrites an asset.
pub fn asset_candidate(safe: &str, n: u32) -> (r: String)
    ensures
        r@ == candidate_name(safe@, n as nat),
{
    if n == 0 {
        return safe.to_owned();
    }
    let v = chars_of(safe);
    let mut d: usize = v.len();
    while d > 0 && v[d - 1] != '.'
        invariant
            d <= v@.len(),
            last_dot(v@, v@.len() as int) == last_dot(v@, d as int),
        decreases d,
    {
        d -= 1;
    }
    let mut out: Vec<char> = Vec::new();
    if d == 0 {
        crate::text::push_all(&mut out, &v);
        out.push('-');
        push_decimal(&mut out, n as usize);
    } else {
        let stem = copy_range(&v, 0, d - 1);
        let ext = copy_range(&v, d, v.len());
        assert(stem@ =~= v@.take(d - 1));
        assert(ext@ =~= v@.skip(d as int));
        crate::text::push_all(&mut out, &stem);
        out.push('-');
        push_decimal(&mut out, n as usize);
        out.push('.');
        crate::text::push_all(&mut out, &ext);
    }
    string_from(&out)
}

/// The vault-relative path of the asset file `name`.
pub fn asset_rel_path(name: &str) -> (r: String)
    ensures
        r@ == "assets/"@ + name@,
{
    let mut out: Vec<char> = Vec::new();
    push_str(&mut out, "assets/");
    push_str(&mut out, name);
    string_from(&out)
}

/// The message refusing a removal outside `assets/`.
pub open spec fn not_asset_message(rel: Seq<char>) -> Seq<char> {
    "not an asset path (must be under assets/): "@ + rel
}

/// The path a removal of `rel` may delete: `rel` cleaned (see [`safe_rel`]), which must lie
/// under `assets/`; traversal and paths elsewhere in the vault are refused.
pub fn removable_asset_path(rel: &str) -> (r: Result<String, String>)
    ensures
        match safe_rel(rel@) {
            Err(m) => r matches Err(e) && e@ == m,
            Ok(p) => if starts_with(p, "assets/"@) {
                r matches Ok(s) && s@ == p
            } else {
                r matches Err(e) && e@ == not_asset_message(rel@)
            },
        },
{
    let clean = safe_relative_path(rel)?;
    let cv = chars_of(clean.as_str());
    let pv = chars_of("assets/");
    let ok = has_prefix_at(&cv, 0, cv.len(), &pv);
    assert(cv@.subrange(0, cv@.len() as int) =~= cv@);
    if !ok {
        let mut m: Vec<char> = Vec::new();
        push_str(&mut m, "not an asset path (must be under assets/): ");
        push_str(&mut m, rel);
        return Err(string_from(&m));
    }
    Ok(clean)
}

/// Whether `p` occurs in `s`.
pub open spec fn occurs_in(s: Seq<char>, p: Seq<char>) -> bool {
    exists|i: int| 0 <= i && i + p.len() <= s.len() && #[trigger] s.subrange(i, i + p.len()) == p
}

fn occurs_exec(s: &Vec<char>, p: &Vec<char>) -> (r: bool)
    ensures
        r == occurs_in(s@, p@),
{
    if p.len() > s.len() {
        return false;
    }
    let lim = s.len() - p.len();
    let mut i: usize = 0;
    loop
        invariant
            p@.len() <= s@.len(),
            lim == s@.len() - p@.len(),
            i <= lim,
            forall|k: int| 0 <= k < i ==> #[trigger] s@.subrange(k, k + p@.len()) != p@,
        decreases lim - i,
    {
        if has_prefix_at(s, i, s.len(), p) {
            return true;
        }
        if i == lim {
            proof {
                assert forall|k: int| 0 <= k && k + p@.len() <= s@.len() implies #[trigger] s@.subrange(k, k + p@.len()) != p@ by {
                    assert(k <= i);
                }
            }
            return false;
        }
        i += 1;
    }
}

/// Whether no body mentions `rel`.
pub open spec fn unreferenced(rel: Seq<char>, bodies: Seq<Seq<char>>) -> bool {
    forall|j: int| 0 <= j < bodies.len() ==> !occurs_in(#[trigger] bodies[j], rel)
}

/// Whether `s` is in non-decreasing order.
pub open spec fn sorted(s: Seq<Seq<char>>) -> bool {
    forall|i: int, j: int| 0 <= i < j < s.len() ==> !lex_lt(#[trigger] s[j], #[trigger] s[i])
}

/// Sorts with `slice::sort` (by `String`'s order, which compares the characters
/// lexicographically). Claimed: the result holds the same strings, in non-decreasing order.
#[verifier::external_body]
fn sort_strings(v: &mut Vec<String>)
    ensures
        strs_view(final(v)@).to_multiset() == strs_view(old(v)@).to_multiset(),
        sorted(strs_view(final(v)@)),
{
    v.sort();
}

/// The orphaned assets: those of `assets` (vault-relative paths) that no block body mentions
/// (any occurrence of the path counts, so a reference in any form keeps the file), sorted. The
/// check is deliberately conservative: cleanup is never automatic.
pub fn orphan_assets(assets: &[String], bodies: &[String]) -> (r: Vec<String>)
    ensures
        sorted(strs_view(r@)),
        strs_view(r@).to_multiset() == strs_view(assets@).filter(
            |a: Seq<char>| unreferenced(a, strs_view(bodies@)),
        ).to_multiset(),
{
    let ghost bv = strs_view(bodies@);
    let mut bs: Vec<Vec<char>> = Vec::new();
    let mut k: usize = 0;
    while k < bodies.len()
        invariant
            k <= bodies@.len(),
            bv == strs_view(bodies@),
            bs@.len() == k,
            forall|j: int| 0 <= j < k ==> (#[trigger] bs@[j])@ == bv[j],
        decreases bodies.len() - k,
    {
        bs.push(chars_of(bodies[k].as_str()));
        k += 1;
    }
    let ghost av = strs_view(assets@);
    let mut out: Vec<String> = Vec::new();
    let mut i: usize = 0;
    assert(av.take(0).filter(|a: Seq<char>| unreferenced(a, bv)) =~= Seq::<Seq<char>>::empty()) by {
        reveal(Seq::filter);
    }
    assert(strs_view(out@) =~= Seq::<Seq<char>>::empty());
    while i < assets.len()
        invariant
            i <= assets@.len(),
            av == strs_view(assets@),
            bv == strs_view(bodies@),
            bs@.len() == bv.len(),
            forall|j: int| 0 <= j < bv.len() ==> (#[trigger] bs@[j])@ == bv[j],
            strs_view(out@) == av.take(i as int).filter(|a: Seq<char>| unreferenced(a, bv)),
        decreases assets.len() - i,
    {
        let a = chars_of(assets[i].as_str());
        assert(a@ == av[i as int]);
        let mut used = false;
        let mut j: usize = 0;
        while j < bs.len()
            invariant
                j <= bs@.len(),
                bs@.len() == bv.len(),
                forall|x: int| 0 <= x < bv.len() ==> (#[trigger] bs@[x])@ == bv[x],
                used == (exists|x: int| 0 <= x < j && occurs_in(#[trigger] bv[x], a@)),
            decreases bs.len() - j,
        {
            if occurs_exec(&bs[j], &a) {
                used = true;
            }
            j += 1;
        }
        let ghost t = av.take(i + 1);
        assert(t.drop_last() =~= av.take(i as int));
        assert(t.last() == a@);
        let ghost before = strs_view(out@);
        if !used {
            out.push(assets[i].clone());
            assert(strs_view(out@) =~= before.push(a@));
        }
        assert(t.filter(|a: Seq<char>| unreferenced(a, bv)) == strs_view(out@)) by {
            reveal_with_fuel(Seq::filter, 1);
        }
        i += 1;
    }
    assert(av.take(assets@.len() as int) =~= av);
    sort_strings(&mut out);
    out
}

} // verus!
