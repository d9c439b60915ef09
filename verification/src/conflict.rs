//! Detection of cloud-sync conflict files.
//!
//! When a synced vault is edited in two places, the sync engine spawns a conflict copy with a
//! mangled name rather than merging. Such files must not be indexed; they are detected by name.

use vstd::prelude::*;
use crate::rx::{is_match, regex_is_match};
use crate::text::{chars_of, copy_range, string_from, str_lowercase, to_lowercase};
use crate::yaml::contains_seq;

verus! {

/// The part of `p` after its last `/` (all of `p` when it has none).
pub open spec fn last_segment(p: Seq<char>) -> Seq<char>
    decreases p.len(),
{
    if p.len() == 0 {
        p
    } else if p.last() == '/' {
        seq![]
    } else {
        last_segment(p.drop_last()).push(p.last())
    }
}

/// The case-insensitive markers that unambiguously name a conflict copy.
pub open spec fn has_conflict_marker(lower: Seq<char>) -> bool {
    contains_seq(lower, "(conflicted copy"@) || contains_seq(lower, "conflicted copy"@)
        || contains_seq(lower, ".sync-conflict-"@)
}

/// The OneDrive device-suffix shape: `-<DEVICE>-<token>.<ext>` at the end of the name.
pub open spec fn device_suffix_pattern() -> Seq<char> {
    "-(?:DESKTOP|LAPTOP|PC|MACBOOK)-[A-Z0-9]{4,}\\.[A-Za-z0-9]+$"@
}

/// Whether a vault-relative path names a cloud-sync conflict copy: its file name, lower-cased,
/// holds a conflict marker, or the (case-sensitive) name ends in a device suffix.
pub open spec fn conflict_path(p: Seq<char>) -> bool {
    let file = last_segment(p);
    has_conflict_marker(str_lowercase(file)) || regex_is_match(device_suffix_pattern(), file)
        == Some(true)
}

/// Whether `p` occurs in `s`.
fn contains_sub(s: &Vec<char>, p: &Vec<char>) -> (r: bool)
    ensures
        r == contains_seq(s@, p@),
{
    if p.len() > s.len() {
        return false;
    }
    if p.len() == 0 {
        assert(s@.subrange(0, 0 + p@.len() as int) =~= p@);
        return true;
    }
    let mut i: usize = 0;
    while i <= s.len() - p.len()
        invariant
            1 <= p@.len() <= s@.len(),
            i <= s@.len() - p@.len() + 1,
            forall|k: int|
                0 <= k < i ==> #[trigger] s@.subrange(k, k + p@.len()) != p@,
        decreases s.len() - p.len() + 1 - i,
    {
        if crate::text::has_prefix_at(s, i, s.len(), p) {
            return true;
        }
        i += 1;
    }
    false
}

pub(crate) fn contains_str(s: &Vec<char>, p: &str) -> (r: bool)
    ensures
        r == contains_seq(s@, p@),
{
    let pv = chars_of(p);
    contains_sub(s, &pv)
}

/// Whether a vault-relative path looks like a cloud-sync conflict copy.
pub fn is_conflict_path(path: &str) -> (r: bool)
    ensures
        r == conflict_path(path@),
{
    let p = chars_of(path);
    let mut i = p.len();
    assert(p@.take(i as int) =~= p@);
    assert(p@.subrange(i as int, i as int) =~= Seq::<char>::empty());
    assert(last_segment(p@) + Seq::<char>::empty() =~= last_segment(p@));
    while i > 0 && p[i - 1] != '/'
        invariant
            i <= p@.len(),
            last_segment(p@) == last_segment(p@.take(i as int)) + p@.subrange(
                i as int,
                p@.len() as int,
            ),
        decreases i,
    {
        assert(p@.take(i as int).drop_last() =~= p@.take(i - 1));
        assert(last_segment(p@.take(i as int)) == last_segment(p@.take(i - 1)).push(p@[i - 1]));
        assert(last_segment(p@.take(i - 1)).push(p@[i - 1]) + p@.subrange(i as int, p@.len() as int)
            =~= last_segment(p@.take(i - 1)) + p@.subrange(i - 1, p@.len() as int));
        i -= 1;
    }
    proof {
        if i > 0 {
            assert(p@.take(i as int).last() == '/');
        }
        assert(last_segment(p@.take(i as int)) =~= Seq::<char>::empty());
    }
    assert(p@.take(p@.len() as int) =~= p@);
    let fv = copy_range(&p, i, p.len());
    assert(fv@ =~= last_segment(p@));
    let file = string_from(&fv);
    let lower = to_lowercase(file.as_str());
    let pattern = "-(?:DESKTOP|LAPTOP|PC|MACBOOK)-[A-Z0-9]{4,}\\.[A-Za-z0-9]+$";
    let suffix = is_match(pattern, file.as_str());
    conflict_verdict(lower.as_str(), suffix)
}

/// Whether a file name names a conflict copy, given its lower-cased form and what matching it
/// against [`device_suffix_pattern`] gave: a conflict marker in the lower-cased name, or a
/// device-suffix match.
pub fn conflict_verdict(lower_name: &str, device_suffix: Option<bool>) -> (r: bool)
    ensures
        r == (has_conflict_marker(lower_name@) || device_suffix == Some(true)),
{
    let lv = chars_of(lower_name);
    if contains_str(&lv, "(conflicted copy") || contains_str(&lv, "conflicted copy")
        || contains_str(&lv, ".sync-conflict-") {
        return true;
    }
    match device_suffix {
        Some(m) => m,
        None => false,
    }
}

} // verus!
