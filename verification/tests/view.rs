use mdkb::view::{
    block_title, escape_html, markdown_to_html, page_document, rewrite_mdkb_links,
    search_results_html, NavEntry, ResultRow,
};

#[test]
fn escape_html_neutralises_markup() {
    assert_eq!(escape_html("<script>&\"'"), "&lt;script&gt;&amp;&quot;&#39;");
}

#[test]
fn block_title_prefers_title_then_first_line() {
    assert_eq!(block_title(Some("Explicit"), "body"), "Explicit");
    assert_eq!(block_title(None, "# Heading\n\nbody"), "Heading");
    assert_eq!(block_title(Some("  "), "first line"), "first line");
}

#[test]
fn block_title_strips_markup_and_defaults_to_untitled() {
    assert_eq!(block_title(None, "## **bold** `x`\n"), "bold x");
    assert_eq!(block_title(None, "\n  \n"), "(untitled)");
}

#[test]
fn document_includes_nav_and_active_highlight() {
    let entries = vec![
        NavEntry { id: "a".into(), title: "Alpha".into() },
        NavEntry { id: "b".into(), title: "Beta".into() },
    ];
    let doc = page_document("T", "<p>hi</p>", &entries, "b");
    assert!(doc.contains("<!DOCTYPE html>"));
    assert!(doc.contains("href=\"/block/a\""));
    assert!(doc.contains("class=\"active\""));
    assert!(doc.contains("<p>hi</p>"));
    assert!(doc.contains("action=\"/search\""));
}

#[test]
fn search_results_render_links_and_escape() {
    let rows = vec![ResultRow {
        id: "x".into(),
        title: "Note".into(),
        tags: vec!["top".into()],
        content: "a <dangerous> line".into(),
    }];
    let html = search_results_html("q", &rows);
    assert!(html.contains("href=\"/block/x\""));
    assert!(html.contains("&lt;dangerous&gt;"));
    assert!(html.contains("top"));
    assert!(html.contains("1 result(s) for <strong>q</strong>"));
}

#[test]
fn empty_search_says_no_matches() {
    assert!(search_results_html("q", &[]).contains("No matches"));
}

#[test]
fn wiki_reference_becomes_chip_link() {
    let html = markdown_to_html("see [ideas](mdkb:ideas.md) now");
    assert!(
        html.contains("<a class=\"wikilink\" href=\"mdkb:ideas.md\">ideas</a>"),
        "got: {html}"
    );
}

#[test]
fn unresolved_reference_is_marked() {
    let html = markdown_to_html("see [ghost](mdkb:?unresolved) now");
    assert!(html.contains("class=\"wikilink unresolved\""), "got: {html}");
}

#[test]
fn embed_card_blockquote_is_tagged() {
    let html = markdown_to_html("> ⧉ [src](mdkb:src.md#01ABC)\n>\n> the body\n");
    assert!(html.contains("<blockquote class=\"mdkb-embed\">"), "got: {html}");
    assert!(html.contains("the body"));
}

#[test]
fn rewrite_mdkb_links_targets_web_routes() {
    let html = "<a class=\"wikilink\" href=\"mdkb:ideas.md#01ABC\">ideas</a>";
    let web = rewrite_mdkb_links(html, "/page/");
    assert!(web.contains("href=\"/page/ideas.md#01ABC\""), "got: {web}");
}

#[test]
fn code_fence_language_becomes_class() {
    let html = markdown_to_html("```kusto\nStormEvents | take 10\n```\n");
    assert!(html.contains("language-kusto"));
    assert!(html.contains("StormEvents"));
}

#[test]
fn raw_html_is_neutralised_not_executed() {
    let html = markdown_to_html("hello <script>alert('xss')</script> world\n");
    assert!(!html.contains("<script>"), "raw <script> must not pass through");
    assert!(html.contains("&lt;script&gt;"));
    let img = markdown_to_html("<img src=x onerror=alert(1)>\n");
    assert!(!img.contains("<img"), "raw <img> must not pass through");
}

#[test]
fn unresolved_links_become_inert_on_rewrite() {
    let web = rewrite_mdkb_links("<a href=\"mdkb:?unresolved\">x</a>", "/block/");
    assert_eq!(web, "<a href=\"#\" aria-disabled=\"true\">x</a>");
}
