//! The desktop app's command-line tools: which of the bundled binaries still need a link on
//! the user's PATH, the privileged shell command that creates the links and how a failure of it
//! reads, and the bare version a tool reports. Looking at the file system and running the tools
//! happen outside.

use vstd::prelude::*;
use crate::paths::join_path;
use crate::text::{
    chars_of, copy_range, is_whitespace, is_ws, push_range, push_str, str_lowercase, string_from,
    to_lowercase, trim, trim_bounds,
};
use crate::yaml::contains_seq;
use crate::conflict::contains_str;

verus! {

/// The tools bundled with the app, in the order they are linked.
pub open spec fn cli_names() -> Seq<Seq<char>> {
    seq!["mkb"@, "mkb-mcp"@, "mkbd"@, "mkb-web"@]
}

/// How many tools the app bundles.
pub const CLI_TOOL_COUNT: usize = 4;

/// The name of the `i`-th bundled tool (see [`cli_names`]).
pub fn cli_name(i: usize) -> (r: &'static str)
    requires
        i < CLI_TOOL_COUNT,
    ensures
        r@ == cli_names()[i as int],
{
    if i == 0 {
        "mkb"
    } else if i == 1 {
        "mkb-mcp"
    } else if i == 2 {
        "mkbd"
    } else {
        "mkb-web"
    }
}

/// The links of the first `n` tools that still need creating: a tool whose bundled binary is
/// present (`obs[i].0`) and whose link is missing or points elsewhere (`obs[i].1`).
pub open spec fn link_work(bin: Seq<char>, dir: Seq<char>, obs: Seq<(bool, Option<Seq<char>>)>, n: int) -> Seq<(Seq<char>, Seq<char>)>
    decreases n,
{
    if n <= 0 {
        seq![]
    } else {
        let name = cli_names()[n - 1];
        let src = join_path(bin, name);
        let rest = link_work(bin, dir, obs, n - 1);
        if obs[n - 1].0 && obs[n - 1].1 != Some(src) {
            rest.push((src, join_path(dir, name)))
        } else {
            rest
        }
    }
}

/// Which tool links are missing or stale, as `(source binary, link path)` pairs. `observed[i]`
/// holds, for the `i`-th of [`cli_names`], whether its bundled binary exists in `bin` and where
/// its link in `link_dir` points, if it is a link. A binary that is not bundled is skipped, so an
/// empty plan means "already linked" or "nothing to link".
pub fn cli_link_plan(bin: &str, link_dir: &str, observed: &[(bool, Option<String>)]) -> (r: Vec<(String, String)>)
    requires
        observed@.len() == CLI_TOOL_COUNT,
    ensures
        r@.map_values(|p: (String, String)| (p.0@, p.1@)) == link_work(
            bin@,
            link_dir@,
            observed@.map_values(|o: (bool, Option<String>)| (o.0, crate::block::opt_str_view(o.1))),
            4,
        ),
{
    let ghost ov = observed@.map_values(|o: (bool, Option<String>)| (o.0, crate::block::opt_str_view(o.1)));
    let mut work: Vec<(String, String)> = Vec::new();
    let mut i: usize = 0;
    while i < 4
        invariant
            i <= 4,
            observed@.len() == 4,
            ov == observed@.map_values(|o: (bool, Option<String>)| (o.0, crate::block::opt_str_view(o.1))),
            work@.map_values(|p: (String, String)| (p.0@, p.1@)) == link_work(bin@, link_dir@, ov, i as int),
        decreases 4 - i,
    {
        let name = cli_name(i);
        let src = crate::paths::join(bin, name);
        let (present, current) = &observed[i];
        assert(ov[i as int] == (*present, crate::block::opt_str_view(*current)));
        let stale = match current {
            Some(t) => !crate::text::str_eq(t.as_str(), src.as_str()),
            None => true,
        };
        let ghost before = work@.map_values(|p: (String, String)| (p.0@, p.1@));
        if *present && stale {
            let link = crate::paths::join(link_dir, name);
            work.push((src, link));
            assert(work@.map_values(|p: (String, String)| (p.0@, p.1@)) =~= before.push(
                (join_path(bin@, cli_names()[i as int]), join_path(link_dir@, cli_names()[i as int])),
            ));
        }
        i += 1;
    }
    work
}

/// The start of the whitespace-free run that ends at `e` in `s`.
pub open spec fn token_start(s: Seq<char>, e: int) -> int
    decreases e,
{
    if e <= 0 || e > s.len() || is_ws(s[e - 1]) {
        e
    } else {
        token_start(s, e - 1)
    }
}

/// The end of the last non-whitespace character of `s[..e]` (0 when there is none).
pub open spec fn content_end(s: Seq<char>, e: int) -> int
    decreases e,
{
    if e <= 0 || e > s.len() {
        0
    } else if is_ws(s[e - 1]) {
        content_end(s, e - 1)
    } else {
        e
    }
}

/// The last whitespace-separated token of `s`, if it has one.
pub open spec fn last_token(s: Seq<char>) -> Option<Seq<char>> {
    let e = content_end(s, s.len() as int);
    if e == 0 {
        None
    } else {
        Some(s.subrange(token_start(s, e), e))
    }
}

/// Reduce a tool's `--version` line (`"mkb 0.3.0"`) to the bare version (`"0.3.0"`): the last
/// whitespace-separated token, or `None` for output with no token.
pub fn parse_version_output(s: &str) -> (r: Option<String>)
    ensures
        crate::block::opt_str_view(r) == last_token(s@),
{
    let v = chars_of(s);
    let mut e: usize = v.len();
    while e > 0 && is_whitespace(v[e - 1])
        invariant
            e <= v@.len(),
            content_end(v@, v@.len() as int) == content_end(v@, e as int),
        decreases e,
    {
        e -= 1;
    }
    if e == 0 {
        return None;
    }
    let mut b: usize = e;
    while b > 0 && !is_whitespace(v[b - 1])
        invariant
            b <= e,
            e <= v@.len(),
            token_start(v@, e as int) == token_start(v@, b as int),
        decreases b,
    {
        b -= 1;
    }
    let t = copy_range(&v, b, e);
    Some(string_from(&t))
}

// ---------------------------------------------------------------------------------------------
// The link command.
// ---------------------------------------------------------------------------------------------

/// The shell commands after `mkdir`: one ` && ln -sf '<src>' '<link>'` per pair of `work[i..]`.
pub open spec fn link_steps(work: Seq<(Seq<char>, Seq<char>)>, i: int) -> Seq<char>
    decreases work.len() - i,
{
    if i < 0 || i >= work.len() {
        seq![]
    } else {
        " && ln -sf '"@ + work[i].0 + "' '"@ + work[i].1 + "'"@ + link_steps(work, i + 1)
    }
}

/// The shell command that creates `link_dir` and the links `work` names.
pub open spec fn link_command_of(link_dir: Seq<char>, work: Seq<(Seq<char>, Seq<char>)>) -> Seq<char> {
    "mkdir -p "@ + link_dir + link_steps(work, 0)
}

/// The shell command that creates `link_dir` and the links of `work` (`(source, link)` pairs).
pub fn link_command(link_dir: &str, work: &Vec<(String, String)>) -> (r: String)
    ensures
        r@ == link_command_of(link_dir@, work@.map_values(|p: (String, String)| (p.0@, p.1@))),
{
    let ghost wv = work@.map_values(|p: (String, String)| (p.0@, p.1@));
    let mut out: Vec<char> = Vec::new();
    push_str(&mut out, "mkdir -p ");
    push_str(&mut out, link_dir);
    let ghost head = out@;
    let mut i: usize = 0;
    assert(head + link_steps(wv, 0) == link_command_of(link_dir@, wv));
    while i < work.len()
        invariant
            i <= work@.len() == wv.len(),
            wv == work@.map_values(|p: (String, String)| (p.0@, p.1@)),
            out@ + link_steps(wv, i as int) == link_command_of(link_dir@, wv),
        decreases work.len() - i,
    {
        let ghost before = out@;
        push_str(&mut out, " && ln -sf '");
        push_str(&mut out, work[i].0.as_str());
        push_str(&mut out, "' '");
        push_str(&mut out, work[i].1.as_str());
        push_str(&mut out, "'");
        assert(wv[i as int] == (work@[i as int].0@, work@[i as int].1@));
        assert(out@ + link_steps(wv, i + 1) =~= before + link_steps(wv, i as int));
        i += 1;
    }
    assert(out@ + link_steps(wv, i as int) =~= out@);
    string_from(&out)
}

/// `s` with `\` doubled and `"` escaped, for an AppleScript string literal.
pub open spec fn applescript_escape(s: Seq<char>) -> Seq<char>
    decreases s.len(),
{
    if s.len() == 0 {
        seq![]
    } else {
        let c = s[0];
        (if c == '\\' {
            seq!['\\', '\\']
        } else if c == '"' {
            seq!['\\', '"']
        } else {
            seq![c]
        }) + applescript_escape(s.drop_first())
    }
}

/// The AppleScript that runs the shell command `sh` with administrator privileges.
pub fn privileged_script(sh: &str) -> (r: String)
    ensures
        r@ == "do shell script \""@ + applescript_escape(sh@) + "\" with administrator privileges"@,
{
    let v = chars_of(sh);
    let mut out: Vec<char> = Vec::new();
    push_str(&mut out, "do shell script \"");
    let ghost head = out@;
    let mut i: usize = 0;
    assert(v@.skip(0) =~= v@);
    while i < v.len()
        invariant
            i <= v@.len(),
            out@ + applescript_escape(v@.skip(i as int)) == head + applescript_escape(v@),
        decreases v.len() - i,
    {
        let ghost before = out@;
        let c = v[i];
        if c == '\\' {
            out.push('\\');
            out.push('\\');
        } else if c == '"' {
            out.push('\\');
            out.push('"');
        } else {
            out.push(c);
        }
        assert(v@.skip(i as int).drop_first() =~= v@.skip(i + 1));
        assert(v@.skip(i as int)[0] == c);
        assert(out@ + applescript_escape(v@.skip(i + 1)) =~= before + applescript_escape(
            v@.skip(i as int),
        ));
        i += 1;
    }
    assert(v@.skip(i as int) =~= Seq::<char>::empty());
    assert(out@ + applescript_escape(Seq::<char>::empty()) =~= out@);
    push_str(&mut out, "\" with administrator privileges");
    string_from(&out)
}

/// Whether the privileged command failed because the user dismissed the prompt: on macOS its
/// error output mentions `-128` or (in any case) "cancel"; elsewhere `pkexec` exits with 126.
pub open spec fn install_cancelled(macos: bool, stderr: Seq<char>, code: Option<i32>) -> bool {
    if macos {
        contains_seq(stderr, "-128"@) || contains_seq(str_lowercase(stderr), "cancel"@)
    } else {
        code == Some(126i32)
    }
}

/// The error a failed link command reports: `Cancelled.` when the prompt was dismissed, else
/// the trimmed error output after `Could not install the CLI tools: `.
pub fn install_failure(macos: bool, stderr: &str, code: Option<i32>) -> (r: String)
    ensures
        r@ == if install_cancelled(macos, stderr@, code) {
            "Cancelled."@
        } else {
            "Could not install the CLI tools: "@ + trim(stderr@)
        },
{
    let v = chars_of(stderr);
    let cancelled = if macos {
        contains_str(&v, "-128") || contains_str(&chars_of(to_lowercase(stderr).as_str()), "cancel")
    } else {
        match code {
            Some(c) => c == 126,
            None => false,
        }
    };
    if cancelled {
        return "Cancelled.".to_owned();
    }
    let mut out: Vec<char> = Vec::new();
    push_str(&mut out, "Could not install the CLI tools: ");
    let (a, b) = trim_bounds(&v, 0, v.len());
    assert(v@.subrange(0, v@.len() as int) =~= v@);
    push_range(&mut out, &v, a, b);
    string_from(&out)
}

} // verus!
