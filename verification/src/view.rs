//! The presentation layer shared by every user interface: one Markdown-to-HTML path and one
//! page template, so the views cannot drift apart. Interfaces hand in Markdown whose directives
//! are already resolved (see the renderer) and get back HTML.

use vstd::prelude::*;
use pulldown_cmark::{Event, Options};
use crate::block::{first_text_line, first_text_line_exec, strip_markup, strip_markup_exec};
use crate::text::{
    chars_of, copy_range, push_all, push_str, replace_all, replace_str, string_from, trim,
    trim_bounds,
};

verus! {

// ---------------------------------------------------------------------------------------------
// Escaping.
// ---------------------------------------------------------------------------------------------

/// The HTML text for one character.
pub open spec fn escape_char(c: char) -> Seq<char> {
    if c == '&' {
        "&amp;"@
    } else if c == '<' {
        "&lt;"@
    } else if c == '>' {
        "&gt;"@
    } else if c == '"' {
        "&quot;"@
    } else if c == '\'' {
        "&#39;"@
    } else {
        seq![c]
    }
}

/// `s` with `&`, `<`, `>`, `"` and `'` replaced by entities.
pub open spec fn html_escape(s: Seq<char>) -> Seq<char>
    decreases s.len(),
{
    if s.len() == 0 {
        seq![]
    } else {
        html_escape(s.drop_last()) + escape_char(s.last())
    }
}

fn push_escaped(out: &mut Vec<char>, s: &Vec<char>)
    ensures
        final(out)@ == old(out)@ + html_escape(s@),
{
    let ghost start = out@;
    let mut i: usize = 0;
    while i < s.len()
        invariant
            i <= s@.len(),
            out@ == start + html_escape(s@.take(i as int)),
        decreases s.len() - i,
    {
        let c = s[i];
        assert(s@.take(i + 1).drop_last() =~= s@.take(i as int));
        assert(s@.take(i + 1).last() == c);
        if c == '&' {
            push_str(out, "&amp;");
        } else if c == '<' {
            push_str(out, "&lt;");
        } else if c == '>' {
            push_str(out, "&gt;");
        } else if c == '"' {
            push_str(out, "&quot;");
        } else if c == '\'' {
            push_str(out, "&#39;");
        } else {
            out.push(c);
        }
        assert(out@ =~= start + html_escape(s@.take(i + 1)));
        i += 1;
    }
    assert(s@.take(s@.len() as int) =~= s@);
}

/// HTML-escape a string for safe insertion into element text or attributes.
pub fn escape_html(s: &str) -> (r: String)
    ensures
        r@ == html_escape(s@),
{
    let mut out: Vec<char> = Vec::new();
    push_escaped(&mut out, &chars_of(s));
    string_from(&out)
}

// ---------------------------------------------------------------------------------------------
// Markdown to HTML.
// ---------------------------------------------------------------------------------------------

/// The HTML fragment that pulldown-cmark renders for the Markdown `md`, with tables,
/// strikethrough, task lists and footnotes enabled and each raw HTML event emitted as text.
pub uninterp spec fn cmark_html(md: Seq<char>) -> Seq<char>;

/// Renders through `pulldown_cmark::Parser::new_ext` and `pulldown_cmark::html::push_html`,
/// mapping `Event::Html` and `Event::InlineHtml` to `Event::Text` so raw HTML in a note stays
/// inert text. Claimed: the result is the named rendering of the argument.
#[verifier::external_body]
fn render_cmark(md: &str) -> (r: String)
    ensures
        r@ == cmark_html(md@),
{
    let options = Options::ENABLE_TABLES | Options::ENABLE_STRIKETHROUGH
        | Options::ENABLE_TASKLISTS | Options::ENABLE_FOOTNOTES;
    let parser = pulldown_cmark::Parser::new_ext(md, options).map(|event| match event {
        Event::Html(h) => Event::Text(h),
        Event::InlineHtml(h) => Event::Text(h),
        other => other,
    });
    let mut out = String::new();
    pulldown_cmark::html::push_html(&mut out, parser);
    out
}

/// Wiki styling on rendered HTML: `mdkb:` links become `wikilink` chips (dangling ones also
/// `unresolved`), and a blockquote opening with `⧉` (an embed card) gets `class="mdkb-embed"`.
pub open spec fn decorated(html: Seq<char>) -> Seq<char> {
    replace_all(
        replace_all(
            replace_all(
                html,
                "<a href=\"mdkb:?unresolved\""@,
                "<a class=\"wikilink unresolved\" href=\"mdkb:?unresolved\""@,
            ),
            "<a href=\"mdkb:"@,
            "<a class=\"wikilink\" href=\"mdkb:"@,
        ),
        "<blockquote>\n<p>⧉"@,
        "<blockquote class=\"mdkb-embed\">\n<p>⧉"@,
    )
}

fn decorate_wiki(html: &Vec<char>) -> (r: Vec<char>)
    ensures
        r@ == decorated(html@),
{
    let a = replace_str(
        html,
        "<a href=\"mdkb:?unresolved\"",
        "<a class=\"wikilink unresolved\" href=\"mdkb:?unresolved\"",
    );
    let b = replace_str(&a, "<a href=\"mdkb:", "<a class=\"wikilink\" href=\"mdkb:");
    replace_str(&b, "<blockquote>\n<p>⧉", "<blockquote class=\"mdkb-embed\">\n<p>⧉")
}

/// Convert Markdown into an HTML fragment: CommonMark with tables, strikethrough, task lists
/// and footnotes; raw HTML is rendered as inert text; wiki links and embed cards are styled.
pub fn markdown_to_html(markdown: &str) -> (r: String)
    ensures
        r@ == decorated(cmark_html(markdown@)),
{
    let html = render_cmark(markdown);
    let v = chars_of(html.as_str());
    string_from(&decorate_wiki(&v))
}

/// `html` with `mdkb:` links pointed at `base` and the unresolved sentinel made inert.
pub open spec fn rewritten_links(html: Seq<char>, base: Seq<char>) -> Seq<char> {
    replace_all(
        replace_all(html, "href=\"mdkb:?unresolved\""@, "href=\"#\" aria-disabled=\"true\""@),
        "href=\"mdkb:"@,
        "href=\""@ + base,
    )
}

/// Rewrite the `mdkb:` link scheme onto a navigation base for a client that uses plain links:
/// `mdkb:<target>` becomes `<base><target>`, and the unresolved sentinel becomes an inert `#`.
pub fn rewrite_mdkb_links(html: &str, base: &str) -> (r: String)
    ensures
        r@ == rewritten_links(html@, base@),
{
    let v = chars_of(html);
    let a = replace_str(&v, "href=\"mdkb:?unresolved\"", "href=\"#\" aria-disabled=\"true\"");
    let mut to: Vec<char> = Vec::new();
    push_str(&mut to, "href=\"");
    push_str(&mut to, base);
    let mut from: Vec<char> = Vec::new();
    push_str(&mut from, "href=\"mdkb:");
    string_from(&crate::text::replace_chars(&a, &from, &to))
}

// ---------------------------------------------------------------------------------------------
// Titles, search results and the page.
// ---------------------------------------------------------------------------------------------

/// The display title for a block: its trimmed title, else the first non-empty line of the
/// content (leading `#`s dropped, `*`, `_` and `` ` `` removed, at most 80 characters), else
/// `(untitled)`.
pub open spec fn view_title_of(title: Option<Seq<char>>, content: Seq<char>) -> Seq<char> {
    if title is Some && trim(title->0).len() > 0 {
        trim(title->0)
    } else {
        match first_text_line(content, 0) {
            Some(t) => if strip_markup(t).len() > 80 {
                strip_markup(t).take(80)
            } else {
                strip_markup(t)
            },
            None => "(untitled)"@,
        }
    }
}

/// Derive a display title for a block from an optional title and its content.
pub fn block_title(title: Option<&str>, content: &str) -> (r: String)
    ensures
        r@ == view_title_of(
            match title {
                Some(t) => Some(t@),
                None => None,
            },
            content@,
        ),
{
    if let Some(t) = title {
        let tv = chars_of(t);
        let (a, b) = trim_bounds(&tv, 0, tv.len());
        assert(tv@.subrange(0, tv@.len() as int) =~= tv@);
        if b > a {
            return string_from(&copy_range(&tv, a, b));
        }
    }
    let cv = chars_of(content);
    match first_text_line_exec(&cv) {
        Some(t) => {
            let s = strip_markup_exec(&t);
            if s.len() > 80 {
                string_from(&copy_range(&s, 0, 80))
            } else {
                string_from(&s)
            }
        },
        None => {
            let mut v: Vec<char> = Vec::new();
            push_str(&mut v, "(untitled)");
            string_from(&v)
        },
    }
}

/// A search result row for display.
pub struct ResultRow {
    /// Block id.
    pub id: String,
    /// Block display title.
    pub title: String,
    /// Tag names (shown as chips).
    pub tags: Vec<String>,
    /// Block content (escaped and previewed).
    pub content: String,
}

/// A sidebar entry: a block id and its display title.
pub struct NavEntry {
    /// Block id.
    pub id: String,
    /// Display title.
    pub title: String,
}

/// The decimal digit for `d < 10`.
pub open spec fn digit_char(d: int) -> char {
    if d == 0 {
        '0'
    } else if d == 1 {
        '1'
    } else if d == 2 {
        '2'
    } else if d == 3 {
        '3'
    } else if d == 4 {
        '4'
    } else if d == 5 {
        '5'
    } else if d == 6 {
        '6'
    } else if d == 7 {
        '7'
    } else if d == 8 {
        '8'
    } else {
        '9'
    }
}

/// The decimal text of `n`.
pub open spec fn decimal(n: nat) -> Seq<char>
    decreases n,
{
    if n < 10 {
        seq![digit_char(n as int)]
    } else {
        decimal(n / 10).push(digit_char((n % 10) as int))
    }
}

fn digit_exec(d: usize) -> (r: char)
    requires
        d < 10,
    ensures
        r == digit_char(d as int),
{
    if d == 0 {
        '0'
    } else if d == 1 {
        '1'
    } else if d == 2 {
        '2'
    } else if d == 3 {
        '3'
    } else if d == 4 {
        '4'
    } else if d == 5 {
        '5'
    } else if d == 6 {
        '6'
    } else if d == 7 {
        '7'
    } else if d == 8 {
        '8'
    } else {
        '9'
    }
}

/// Append the decimal text of `n`.
pub fn push_decimal(out: &mut Vec<char>, n: usize)
    ensures
        final(out)@ == old(out)@ + decimal(n as nat),
    decreases n,
{
    if n < 10 {
        out.push(digit_exec(n));
        assert(decimal(n as nat) =~= seq![digit_char(n as int)]);
    } else {
        push_decimal(out, n / 10);
        out.push(digit_exec(n % 10));
    }
}

/// The strings joined by `sep`.
pub open spec fn join_with(ps: Seq<Seq<char>>, sep: Seq<char>) -> Seq<char>
    decreases ps.len(),
{
    if ps.len() == 0 {
        seq![]
    } else if ps.len() == 1 {
        ps[0]
    } else {
        join_with(ps.drop_last(), sep) + sep + ps.last()
    }
}

/// `v` joined by `sep`.
pub fn join_strings(v: &Vec<String>, sep: &str) -> (r: Vec<char>)
    ensures
        r@ == join_with(crate::block::strs_view(v@), sep@),
{
    let ghost ps = crate::block::strs_view(v@);
    let mut out: Vec<char> = Vec::new();
    let mut i: usize = 0;
    while i < v.len()
        invariant
            i <= v@.len(),
            ps == crate::block::strs_view(v@),
            out@ == join_with(ps.take(i as int), sep@),
        decreases v.len() - i,
    {
        let ghost before = out@;
        if i > 0 {
            push_str(&mut out, sep);
        }
        push_str(&mut out, v[i].as_str());
        proof {
            let t = ps.take(i + 1);
            assert(t.drop_last() =~= ps.take(i as int));
            assert(t.last() == v@[i as int]@);
            if i == 0 {
                assert(out@ =~= join_with(t, sep@));
            } else {
                assert(out@ =~= join_with(t, sep@));
            }
        }
        i += 1;
    }
    assert(ps.take(v@.len() as int) =~= ps);
    out
}

/// At most `n` characters of `s`.
pub open spec fn take_at_most(s: Seq<char>, n: int) -> Seq<char> {
    if s.len() > n {
        s.take(n)
    } else {
        s
    }
}

/// The list item for one result: a link to the block, its tags, and a one-line preview of at
/// most 160 characters.
pub open spec fn result_item(id: Seq<char>, title: Seq<char>, tags: Seq<Seq<char>>, content: Seq<char>) -> Seq<char> {
    "<li><a href=\"/block/"@ + html_escape(id) + "\">"@ + html_escape(title) + "</a>"@ + (if tags.len()
        == 0 {
        seq![]
    } else {
        "<span class=\"crumb\">"@ + html_escape(join_with(tags, " · "@)) + "</span>"@
    }) + "<div class=\"preview\">"@ + html_escape(take_at_most(replace_all(content, seq!['\n'], seq![' ']), 160))
        + "</div></li>"@
}

pub open spec fn result_items(rows: Seq<ResultRow>) -> Seq<char>
    decreases rows.len(),
{
    if rows.len() == 0 {
        seq![]
    } else {
        result_items(rows.drop_last()) + result_item(
            rows.last().id@,
            rows.last().title@,
            crate::block::strs_view(rows.last().tags@),
            rows.last().content@,
        )
    }
}

/// The search results page fragment: a heading with the result count and the escaped query,
/// then either `No matches.` or the list of results.
pub open spec fn search_html(query: Seq<char>, rows: Seq<ResultRow>) -> Seq<char> {
    "<h1>Search</h1><p class=\"muted\">"@ + decimal(rows.len()) + " result(s) for <strong>"@
        + html_escape(query) + "</strong></p>"@ + if rows.len() == 0 {
        "<p class=\"muted\">No matches.</p>"@
    } else {
        "<ul class=\"results\">"@ + result_items(rows) + "</ul>"@
    }
}

/// Render search results as an HTML fragment.
pub fn search_results_html(query: &str, rows: &[ResultRow]) -> (r: String)
    ensures
        r@ == search_html(query@, rows@),
{
    let mut out: Vec<char> = Vec::new();
    push_str(&mut out, "<h1>Search</h1><p class=\"muted\">");
    push_decimal(&mut out, rows.len());
    push_str(&mut out, " result(s) for <strong>");
    push_escaped(&mut out, &chars_of(query));
    push_str(&mut out, "</strong></p>");
    if rows.len() == 0 {
        push_str(&mut out, "<p class=\"muted\">No matches.</p>");
        return string_from(&out);
    }
    push_str(&mut out, "<ul class=\"results\">");
    let ghost pre = out@;
    let mut i: usize = 0;
    while i < rows.len()
        invariant
            i <= rows@.len(),
            out@ == pre + result_items(rows@.take(i as int)),
        decreases rows.len() - i,
    {
        let r = &rows[i];
        let ghost before = out@;
        let ghost tv = crate::block::strs_view(r.tags@);
        push_str(&mut out, "<li><a href=\"/block/");
        push_escaped(&mut out, &chars_of(r.id.as_str()));
        push_str(&mut out, "\">");
        push_escaped(&mut out, &chars_of(r.title.as_str()));
        push_str(&mut out, "</a>");
        if r.tags.len() > 0 {
            push_str(&mut out, "<span class=\"crumb\">");
            push_escaped(&mut out, &join_strings(&r.tags, " · "));
            push_str(&mut out, "</span>");
        }
        push_str(&mut out, "<div class=\"preview\">");
        let flat = replace_str(&chars_of(r.content.as_str()), "\n", " ");
        proof {
            reveal_strlit("\n");
            reveal_strlit(" ");
            assert("\n"@ =~= seq!['\n']);
            assert(" "@ =~= seq![' ']);
        }
        let ghost fl = replace_all(r.content@, seq!['\n'], seq![' ']);
        assert(flat@ == fl);
        let preview = if flat.len() > 160 {
            copy_range(&flat, 0, 160)
        } else {
            flat
        };
        assert(preview@ == take_at_most(fl, 160));
        push_escaped(&mut out, &preview);
        push_str(&mut out, "</div></li>");
        proof {
            reveal_strlit("\n");
            reveal_strlit(" ");
            let t = rows@.take(i + 1);
            assert(t.drop_last() =~= rows@.take(i as int));
            assert(t.last() == *r);
            assert(out@ =~= before + result_item(
                r.id@,
                r.title@,
                crate::block::strs_view(r.tags@),
                r.content@,
            ));
        }
        i += 1;
    }
    assert(rows@.take(rows@.len() as int) =~= rows@);
    push_str(&mut out, "</ul>");
    string_from(&out)
}

/// The sidebar's entries: each a list item linking to its block, the active one marked.
pub open spec fn nav_items(entries: Seq<NavEntry>, active: Seq<char>) -> Seq<char>
    decreases entries.len(),
{
    if entries.len() == 0 {
        seq![]
    } else {
        let e = entries.last();
        nav_items(entries.drop_last(), active) + "<li"@ + (if e.id@ == active {
            " class=\"active\""@
        } else {
            seq![]
        }) + "><a href=\"/block/"@ + html_escape(e.id@) + "\">"@ + html_escape(e.title@)
            + "</a></li>"@
    }
}

/// The stylesheet shared by every HTML view.
pub const STYLE: &'static str = "
:root { --bg:#1e1e2e; --fg:#cdd6f4; --muted:#9399b2; --accent:#89b4fa; --panel:#181825; --border:#313244; }
* { box-sizing: border-box; }
body { margin:0; font: 15px/1.6 -apple-system, BlinkMacSystemFont, \"Segoe UI\", sans-serif; background:var(--bg); color:var(--fg); }
.layout { display:flex; min-height:100vh; }
nav { width:260px; flex:0 0 260px; background:var(--panel); border-right:1px solid var(--border); padding:1rem; overflow-y:auto; }
nav input[type=search] { width:100%; padding:.5rem .6rem; margin-bottom:1rem; background:var(--bg); border:1px solid var(--border); border-radius:6px; color:var(--fg); }
nav ul { list-style:none; margin:0; padding:0; }
nav li a { display:block; padding:.3rem .5rem; border-radius:6px; color:var(--fg); text-decoration:none; }
nav li a:hover { background:var(--border); }
nav li.active a { background:var(--accent); color:var(--panel); font-weight:600; }
main { flex:1; padding:2rem 3rem; max-width:60rem; }
main h1,h2,h3 { line-height:1.25; }
a { color:var(--accent); }
code { background:var(--panel); padding:.1rem .35rem; border-radius:4px; }
pre { background:var(--panel); border:1px solid var(--border); padding:1rem; border-radius:8px; overflow-x:auto; }
pre code { background:none; padding:0; }
blockquote { border-left:3px solid var(--accent); margin:0; padding-left:1rem; color:var(--muted); }
table { border-collapse:collapse; } th,td { border:1px solid var(--border); padding:.4rem .6rem; }
.muted { color:var(--muted); } .crumb { color:var(--muted); margin-left:.5rem; font-size:.85em; }
.results { list-style:none; padding:0; } .results li { padding:.6rem 0; border-bottom:1px solid var(--border); }
.preview { color:var(--muted); font-size:.9em; margin-top:.2rem; }
";

/// The full HTML document: a sidebar with a search box and one link per entry (the `active`
/// id highlighted), and the body fragment as the main content.
pub open spec fn page_html(title: Seq<char>, body: Seq<char>, entries: Seq<NavEntry>, active: Seq<char>) -> Seq<char> {
    "<!DOCTYPE html><html lang=\"en\"><head><meta charset=\"utf-8\"><meta name=\"viewport\" content=\"width=device-width, initial-scale=1\"><title>"@
        + html_escape(title) + "</title><style>"@ + STYLE@ + "</style></head><body><div class=\"layout\">"@
        + "<nav><form action=\"/search\" method=\"get\"><input type=\"search\" name=\"q\" placeholder=\"Search…\" autofocus></form><ul>"@
        + nav_items(entries, active) + "</ul></nav>"@ + "<main>"@ + body
        + "</main></div></body></html>"@
}

/// Wrap a body fragment in the full HTML document: a sidebar of blocks plus a search box and
/// the main content. `active` highlights the current block id (empty for none).
pub fn page_document(title: &str, body_html: &str, entries: &[NavEntry], active: &str) -> (r: String)
    ensures
        r@ == page_html(title@, body_html@, entries@, active@),
{
    let mut out: Vec<char> = Vec::new();
    push_str(
        &mut out,
        "<!DOCTYPE html><html lang=\"en\"><head><meta charset=\"utf-8\"><meta name=\"viewport\" content=\"width=device-width, initial-scale=1\"><title>",
    );
    push_escaped(&mut out, &chars_of(title));
    push_str(&mut out, "</title><style>");
    push_str(&mut out, STYLE);
    push_str(&mut out, "</style></head><body><div class=\"layout\">");
    push_str(
        &mut out,
        "<nav><form action=\"/search\" method=\"get\"><input type=\"search\" name=\"q\" placeholder=\"Search…\" autofocus></form><ul>",
    );
    let ghost pre = out@;
    let mut i: usize = 0;
    while i < entries.len()
        invariant
            i <= entries@.len(),
            out@ == pre + nav_items(entries@.take(i as int), active@),
        decreases entries.len() - i,
    {
        let e = &entries[i];
        let ghost before = out@;
        push_str(&mut out, "<li");
        if crate::text::str_eq(e.id.as_str(), active) {
            push_str(&mut out, " class=\"active\"");
        }
        push_str(&mut out, "><a href=\"/block/");
        push_escaped(&mut out, &chars_of(e.id.as_str()));
        push_str(&mut out, "\">");
        push_escaped(&mut out, &chars_of(e.title.as_str()));
        push_str(&mut out, "</a></li>");
        proof {
            let t = entries@.take(i + 1);
            assert(t.drop_last() =~= entries@.take(i as int));
            assert(t.last() == *e);
            assert(out@ =~= pre + nav_items(t, active@));
        }
        i += 1;
    }
    assert(entries@.take(entries@.len() as int) =~= entries@);
    push_str(&mut out, "</ul></nav>");
    push_str(&mut out, "<main>");
    push_str(&mut out, body_html);
    push_str(&mut out, "</main></div></body></html>");
    string_from(&out)
}

// ---------------------------------------------------------------------------------------------
// Escaped text cannot open markup.
// ---------------------------------------------------------------------------------------------

/// Escaped text holds no `<`, `>`, `"` or `'`, so it can neither open a tag nor close an
/// attribute; text without any of `&<>"'` is kept as it is.
pub proof fn lemma_escaped_is_inert(s: Seq<char>)
    ensures
        forall|k: int|
            0 <= k < html_escape(s).len() ==> {
                let c = #[trigger] html_escape(s)[k];
                c != '<' && c != '>' && c != '"' && c != '\''
            },
        (forall|k: int|
            0 <= k < s.len() ==> {
                let c = #[trigger] s[k];
                c != '&' && c != '<' && c != '>' && c != '"' && c != '\''
            }) ==> html_escape(s) == s,
    decreases s.len(),
{
    reveal_strlit("&amp;");
    reveal_strlit("&lt;");
    reveal_strlit("&gt;");
    reveal_strlit("&quot;");
    reveal_strlit("&#39;");
    if s.len() > 0 {
        let init = s.drop_last();
        lemma_escaped_is_inert(init);
        let e = escape_char(s.last());
        let r = html_escape(s);
        assert(r == html_escape(init) + e);
        assert forall|k: int| 0 <= k < r.len() implies {
            let c = #[trigger] r[k];
            c != '<' && c != '>' && c != '"' && c != '\''
        } by {
            if k < html_escape(init).len() {
                assert(r[k] == html_escape(init)[k]);
            } else {
                assert(r[k] == e[k - html_escape(init).len()]);
            }
        }
        if forall|k: int|
            0 <= k < s.len() ==> {
                let c = #[trigger] s[k];
                c != '&' && c != '<' && c != '>' && c != '"' && c != '\''
            } {
            assert forall|k: int| 0 <= k < init.len() implies {
                let c = #[trigger] init[k];
                c != '&' && c != '<' && c != '>' && c != '"' && c != '\''
            } by {
                assert(init[k] == s[k]);
            }
            assert(s[s.len() - 1] == s.last());
            assert(init + seq![s.last()] =~= s);
        }
    } else {
        assert(html_escape(s) =~= s);
    }
}

} // verus!
