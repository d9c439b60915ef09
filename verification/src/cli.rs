//! The command-line client's argument checks: a block id, a date filter, the property keys
//! an `unset` command collects, and what `export` does with its flags and with the docs the
//! daemon plans. Reading the arguments and files, talking to the daemon, writing and printing
//! happen outside.

use vstd::prelude::*;
use crate::block::opt_str_view;
use crate::clock::{parse_query_date, query_date_of};
use crate::id::{is_ulid, BlockId};
use crate::text::{chars_of, copy_range, push_str, str_lowercase, string_from, to_lowercase, trim, trim_bounds};
use crate::vault::{debug_quoted, debug_text};
use crate::view::{decimal, push_decimal};

verus! {

/// The message for an argument that is no block id.
pub open spec fn bad_id_message(s: Seq<char>) -> Seq<char> {
    "invalid block id: "@ + s
}

/// The block id an argument names.
pub fn parse_id(s: &str) -> (r: Result<BlockId, String>)
    ensures
        is_ulid(s@) ==> (r matches Ok(id) && id@ == s@),
        !is_ulid(s@) ==> (r matches Err(m) && m@ == bad_id_message(s@)),
{
    match BlockId::parse(s) {
        Ok(id) => Ok(id),
        Err(_) => {
            let mut m: Vec<char> = Vec::new();
            push_str(&mut m, "invalid block id: ");
            push_str(&mut m, s);
            Err(string_from(&m))
        },
    }
}

/// The message for a date filter that is no date: the argument quoted as `{:?}` shows it.
pub open spec fn bad_date_message(d: Seq<char>) -> Seq<char> {
    "bad date "@ + debug_text(d) + ": use YYYY-MM-DD or an RFC 3339 timestamp"@
}

/// The normalised instant of a `--after`/`--before` style date argument (see
/// [`query_date_of`]), or the message naming the bad argument.
pub fn parse_date_flag(d: &str) -> (r: Result<String, String>)
    ensures
        match query_date_of(d@) {
            Some(t) => r matches Ok(s) && s@ == t,
            None => r matches Err(m) && m@ == bad_date_message(d@),
        },
{
    match parse_query_date(d) {
        Some(t) => Ok(t),
        None => {
            let q = debug_quoted(d);
            let mut m: Vec<char> = Vec::new();
            push_str(&mut m, "bad date ");
            push_str(&mut m, q.as_str());
            push_str(&mut m, ": use YYYY-MM-DD or an RFC 3339 timestamp");
            Err(string_from(&m))
        },
    }
}

/// The key a property argument names: trimmed, then lower-cased.
pub open spec fn prop_key_of(key: Seq<char>) -> Seq<char> {
    str_lowercase(trim(key))
}

/// Add the key `key` names to `keys`, unless it is empty or already there.
pub fn push_prop_key(keys: &mut Vec<String>, key: &str)
    ensures
        ({
            let k = prop_key_of(key@);
            if k.len() > 0 && !crate::block::strs_view(old(keys)@).contains(k) {
                crate::block::strs_view(final(keys)@) == crate::block::strs_view(old(keys)@).push(k)
            } else {
                crate::block::strs_view(final(keys)@) == crate::block::strs_view(old(keys)@)
            }
        }),
{
    let v = chars_of(key);
    let (a, b) = trim_bounds(&v, 0, v.len());
    assert(v@.subrange(0, v@.len() as int) =~= v@);
    let t = string_from(&copy_range(&v, a, b));
    let k = to_lowercase(t.as_str());
    if chars_of(k.as_str()).len() == 0 {
        return;
    }
    let mut i: usize = 0;
    while i < keys.len()
        invariant
            i <= keys@.len(),
            k@ == prop_key_of(key@),
            keys@ == old(keys)@,
            forall|j: int| 0 <= j < i ==> (#[trigger] keys@[j])@ != k@,
        decreases keys.len() - i,
    {
        if crate::text::str_eq(keys[i].as_str(), k.as_str()) {
            assert(crate::block::strs_view(keys@)[i as int] == k@);
            return;
        }
        i += 1;
    }
    let ghost before = crate::block::strs_view(keys@);
    assert(!before.contains(k@)) by {
        if before.contains(k@) {
            let j = choose|j: int| 0 <= j < before.len() && before[j] == k@;
            assert(keys@[j]@ == k@);
        }
    }
    keys.push(k);
    assert(crate::block::strs_view(keys@) =~= before.push(k@));
}

// ---------------------------------------------------------------------------------------------
// `export`.
// ---------------------------------------------------------------------------------------------

/// The flags of `export`.
#[derive(Debug, Clone, Default)]
pub struct ExportFlags {
    /// A manifest file (TOML, or JSON by `.json` suffix) in place of the default `export.toml`.
    pub manifest: Option<String>,
    /// The output root.
    pub root: Option<String>,
    /// Dump the roots carrying this tag.
    pub tag: Option<String>,
    /// With `tag`: every tagged block, not only roots.
    pub include_non_root: bool,
    /// Pull linked blocks outside the export into it.
    pub follow_links: bool,
    /// Verify only; fail on drift and write nothing.
    pub check: bool,
    /// Omit the generated banner.
    pub raw: bool,
}

/// Which blocks a slug dump exports.
#[derive(Debug, Clone, PartialEq, Eq)]
pub enum ExportSelection {
    AllRoots,
    Tag { name: String, include_non_root: bool },
}

/// What `export` asks the daemon to plan.
#[derive(Debug, Clone, PartialEq, Eq)]
pub enum ExportChoice {
    /// The docs the manifest at this path names.
    Manifest(String),
    /// One `<slug>.md` per selected block.
    Slugs { selection: ExportSelection, follow_links: bool, raw: bool },
}

pub open spec fn both_selectors_message() -> Seq<char> {
    "--tag and --manifest are mutually exclusive selectors"@
}

pub open spec fn non_root_message() -> Seq<char> {
    "--include-non-root only applies with --tag"@
}

pub open spec fn manifest_flags_message() -> Seq<char> {
    "--follow-links and --raw don't apply to --manifest (its paths and per-entry banner policy are explicit); use them with --tag or the whole-KB export"@
}

/// A choice as plain values: `Ok(path)` for a manifest, `Err((tag, include_non_root,
/// follow_links, raw))` for a slug dump (`tag` is `None` for all roots).
pub open spec fn choice_view(c: ExportChoice) -> Result<Seq<char>, (Option<Seq<char>>, bool, bool, bool)> {
    match c {
        ExportChoice::Manifest(p) => Ok(p@),
        ExportChoice::Slugs { selection, follow_links, raw } => Err(
            (
                match selection {
                    ExportSelection::AllRoots => None,
                    ExportSelection::Tag { name, include_non_root: _ } => Some(name@),
                },
                match selection {
                    ExportSelection::AllRoots => false,
                    ExportSelection::Tag { name: _, include_non_root } => include_non_root,
                },
                follow_links,
                raw,
            ),
        ),
    }
}

/// What `export` plans for flags `f`, given the vault's default manifest path if that file
/// exists: the flag conflicts are refused first; then `--tag` dumps the tagged roots, an
/// explicit manifest is used as is, the default manifest is used unless `--follow-links` or
/// `--raw` asks for a slug dump, and otherwise every root is dumped.
pub open spec fn export_plan_of(f: ExportFlags, default_manifest: Option<Seq<char>>) -> Result<
    Result<Seq<char>, (Option<Seq<char>>, bool, bool, bool)>,
    Seq<char>,
> {
    if f.tag is Some && f.manifest is Some {
        Err(both_selectors_message())
    } else if f.include_non_root && f.tag is None {
        Err(non_root_message())
    } else if f.manifest is Some && (f.follow_links || f.raw) {
        Err(manifest_flags_message())
    } else {
        match f.tag {
            Some(name) => Ok(Err((Some(name@), f.include_non_root, f.follow_links, f.raw))),
            None => match f.manifest {
                Some(p) => Ok(Ok(p@)),
                None => match default_manifest {
                    Some(d) => if !f.follow_links && !f.raw {
                        Ok(Ok(d))
                    } else {
                        Ok(Err((None, false, f.follow_links, f.raw)))
                    },
                    None => Ok(Err((None, false, f.follow_links, f.raw))),
                },
            },
        }
    }
}

fn copy_string(s: &String) -> (r: String)
    ensures
        r@ == s@,
{
    string_from(&chars_of(s.as_str()))
}

/// What `export` asks the daemon to plan (see [`export_plan_of`]).
pub fn export_plan(flags: &ExportFlags, default_manifest: Option<String>) -> (r: Result<ExportChoice, String>)
    ensures
        match r {
            Ok(c) => export_plan_of(*flags, opt_str_view(default_manifest)) is Ok
                && export_plan_of(*flags, opt_str_view(default_manifest))->Ok_0 == choice_view(c),
            Err(e) => export_plan_of(*flags, opt_str_view(default_manifest)) is Err
                && export_plan_of(*flags, opt_str_view(default_manifest))->Err_0 == e@,
        },
{
    if flags.tag.is_some() && flags.manifest.is_some() {
        return Err("--tag and --manifest are mutually exclusive selectors".to_owned());
    }
    if flags.include_non_root && flags.tag.is_none() {
        return Err("--include-non-root only applies with --tag".to_owned());
    }
    if flags.manifest.is_some() && (flags.follow_links || flags.raw) {
        return Err(
            "--follow-links and --raw don't apply to --manifest (its paths and per-entry banner policy are explicit); use them with --tag or the whole-KB export".to_owned(),
        );
    }
    let all_roots = ExportChoice::Slugs {
        selection: ExportSelection::AllRoots,
        follow_links: flags.follow_links,
        raw: flags.raw,
    };
    match &flags.tag {
        Some(name) => Ok(
            ExportChoice::Slugs {
                selection: ExportSelection::Tag {
                    name: copy_string(name),
                    include_non_root: flags.include_non_root,
                },
                follow_links: flags.follow_links,
                raw: flags.raw,
            },
        ),
        None => match &flags.manifest {
            Some(p) => Ok(ExportChoice::Manifest(copy_string(p))),
            None => match default_manifest {
                Some(d) => if !flags.follow_links && !flags.raw {
                    Ok(ExportChoice::Manifest(d))
                } else {
                    Ok(all_roots)
                },
                None => Ok(all_roots),
            },
        },
    }
}

/// The directory `export` writes under: `--root` if given, else `docs-export` for a slug dump
/// and `.` for a manifest (whose paths are explicit).
pub fn export_root(flags: &ExportFlags, choice: &ExportChoice) -> (r: String)
    ensures
        r@ == match flags.root {
            Some(root) => root@,
            None => if choice is Slugs {
                "docs-export"@
            } else {
                "."@
            },
        },
{
    match &flags.root {
        Some(root) => copy_string(root),
        None => match choice {
            ExportChoice::Slugs { .. } => "docs-export".to_owned(),
            ExportChoice::Manifest(_) => ".".to_owned(),
        },
    }
}

/// What writing a planned doc does to the file there.
#[derive(Debug, Clone, Copy, PartialEq, Eq, Structural)]
pub enum DocStatus {
    /// The file already holds the planned text.
    Unchanged,
    /// No file was there.
    Created,
    /// A file with other text was there.
    Updated,
}

/// The status of a planned doc with text `content`, given the file's current text, if any.
pub fn doc_status(current: Option<&str>, content: &str) -> (r: DocStatus)
    ensures
        r == match current {
            Some(c) => if c@ == content@ {
                DocStatus::Unchanged
            } else {
                DocStatus::Updated
            },
            None => DocStatus::Created,
        },
{
    match current {
        Some(c) => if crate::text::str_eq(c, content) {
            DocStatus::Unchanged
        } else {
            DocStatus::Updated
        },
        None => DocStatus::Created,
    }
}

/// The paths of the planned docs whose files do not hold their planned text: `docs[k]` is a
/// doc's path and text, `current[k]` its file's text, if any.
pub fn drifted_paths(docs: &Vec<(String, String)>, current: &Vec<Option<String>>) -> (r: Vec<String>)
    requires
        docs@.len() == current@.len(),
    ensures
        crate::block::strs_view(r@) == drift_of(docs@, current@, docs@.len() as int),
{
    let mut out: Vec<String> = Vec::new();
    let mut k: usize = 0;
    assert(crate::block::strs_view(out@) =~= drift_of(docs@, current@, 0));
    while k < docs.len()
        invariant
            k <= docs@.len() == current@.len(),
            crate::block::strs_view(out@) == drift_of(docs@, current@, k as int),
        decreases docs.len() - k,
    {
        let up_to_date = match &current[k] {
            Some(c) => crate::text::str_eq(c.as_str(), docs[k].1.as_str()),
            None => false,
        };
        if !up_to_date {
            let ghost before = crate::block::strs_view(out@);
            out.push(copy_string(&docs[k].0));
            assert(crate::block::strs_view(out@) =~= before.push(docs@[k as int].0@));
        }
        k += 1;
    }
    out
}

/// The paths, among the first `n` docs, whose files are missing or hold other text.
pub open spec fn drift_of(docs: Seq<(String, String)>, current: Seq<Option<String>>, n: int) -> Seq<Seq<char>>
    decreases n,
{
    if n <= 0 {
        seq![]
    } else {
        let rest = drift_of(docs, current, n - 1);
        let up = match current[n - 1] {
            Some(c) => c@ == docs[n - 1].1@,
            None => false,
        };
        if up {
            rest
        } else {
            rest.push(docs[n - 1].0@)
        }
    }
}

/// The line `export` ends with: under `--check`, `up to date (N doc(s))` when nothing drifted
/// and otherwise the error `K doc(s) out of date; run `mdkb export` to regenerate`; else
/// `exported N doc(s) (W written)`.
pub fn export_outcome(check: bool, n_docs: usize, n_drifted: usize, wrote: usize) -> (r: Result<String, String>)
    ensures
        check && n_drifted == 0 ==> r is Ok && r->Ok_0@ == "up to date ("@ + decimal(n_docs as nat)
            + " doc(s))"@,
        check && n_drifted > 0 ==> r is Err && r->Err_0@ == decimal(n_drifted as nat)
            + " doc(s) out of date; run `mdkb export` to regenerate"@,
        !check ==> r is Ok && r->Ok_0@ == "exported "@ + decimal(n_docs as nat) + " doc(s) ("@
            + decimal(wrote as nat) + " written)"@,
{
    let mut out: Vec<char> = Vec::new();
    if check {
        if n_drifted == 0 {
            push_str(&mut out, "up to date (");
            push_decimal(&mut out, n_docs);
            push_str(&mut out, " doc(s))");
            Ok(string_from(&out))
        } else {
            push_decimal(&mut out, n_drifted);
            push_str(&mut out, " doc(s) out of date; run `mdkb export` to regenerate");
            Err(string_from(&out))
        }
    } else {
        push_str(&mut out, "exported ");
        push_decimal(&mut out, n_docs);
        push_str(&mut out, " doc(s) (");
        push_decimal(&mut out, wrote);
        push_str(&mut out, " written)");
        Ok(string_from(&out))
    }
}

} // verus!
