//! Route handling for the web UI. Routes ask a [`Backend`] for data and render through the
//! shared presentation layer: `/` goes to the first block, `/block/<id>` shows a block with its
//! embeds expanded, `/search?q=...` lists matches.

use vstd::prelude::*;
use vstd::utf8::encode_utf8;
use crate::http::{html_type, lookup_last, pairs_view, redirect_body, HttpRequest, HttpResponse};
use crate::text::{chars_of, copy_range, push_all, push_str, string_from, trim, trim_bounds};
use crate::view::{
    cmark_html, decorated, html_escape, markdown_to_html, page_document, page_html, rewrite_mdkb_links,
    rewritten_links, search_html, search_results_html, NavEntry, ResultRow,
};

verus! {

/// The data the web UI needs; implemented over the daemon connection by the application.
pub trait Backend {
    /// Sidebar entries (root blocks).
    fn nav_entries(&self) -> Result<Vec<NavEntry>, String>;

    /// A block (children resolved) as `(title, markdown)`, or `None` when there is no such block.
    fn render_block(&self, id: &str) -> Result<Option<(String, String)>, String>;

    /// Search, returning display rows.
    fn search(&self, query: &str) -> Result<Vec<ResultRow>, String>;
}

/// The body of an error page.
pub open spec fn error_html(msg: Seq<char>) -> Seq<char> {
    "<h1>Error</h1><p class=\"muted\">"@ + html_escape(msg) + "</p>"@
}

/// The response serves `html` with status `status`.
pub open spec fn serves(r: HttpResponse, status: u16, html: Seq<char>) -> bool {
    &&& r.status == status
    &&& r.content_type@ == html_type()
    &&& r.body@ == encode_utf8(html)
    &&& r.location is None
}

/// The response redirects to `loc`.
pub open spec fn redirects(r: HttpResponse, loc: Seq<char>) -> bool {
    &&& r.status == 302
    &&& r.body@ == encode_utf8(redirect_body(loc))
    &&& r.location matches Some(l) && l@ == loc
}

/// The sidebar to show: the backend's entries, or none when it failed.
pub open spec fn nav_or_empty(nav: Result<Vec<NavEntry>, String>) -> Seq<NavEntry> {
    match nav {
        Ok(v) => v@,
        Err(_) => seq![],
    }
}

fn error_page(msg: &str) -> (r: String)
    ensures
        r@ == error_html(msg@),
{
    let mut v: Vec<char> = Vec::new();
    push_str(&mut v, "<h1>Error</h1><p class=\"muted\">");
    let e = crate::view::escape_html(msg);
    push_str(&mut v, e.as_str());
    push_str(&mut v, "</p>");
    string_from(&v)
}

fn nav_of(nav: Result<Vec<NavEntry>, String>) -> (r: Vec<NavEntry>)
    ensures
        r@ == nav_or_empty(nav),
{
    match nav {
        Ok(v) => v,
        Err(_) => Vec::new(),
    }
}

/// The response to a non-GET request.
pub fn get_only_response() -> (r: HttpResponse)
    ensures
        serves(r, 404, error_html("Only GET is supported"@)),
{
    HttpResponse::not_found(error_page("Only GET is supported").as_str())
}

/// The response for an unknown path.
pub fn not_found_response(nav: &[NavEntry]) -> (r: HttpResponse)
    ensures
        not_found_answer(r, nav@),
{
    let body = error_page("Not found");
    HttpResponse::not_found(page_document("Not found", body.as_str(), nav, "").as_str())
}

/// The home response for the sidebar entries `entries`, with the sidebar `nav`: a redirect to
/// the first entry's block, or a page saying there are no blocks (or showing the error).
pub open spec fn home_answer(r: HttpResponse, entries: Result<Vec<NavEntry>, String>, nav: Seq<NavEntry>) -> bool {
    match entries {
        Ok(e) => if e@.len() > 0 {
            redirects(r, "/block/"@ + e@[0].id@)
        } else {
            serves(r, 200, page_html("mdkb"@, "<h1>mdkb</h1><p class=\"muted\">No blocks yet.</p>"@, nav, ""@))
        },
        Err(msg) => serves(r, 200, page_html("mdkb"@, error_html(msg@), nav, ""@)),
    }
}

/// The block page for `id` given what the backend rendered for it, with the sidebar `nav`.
pub open spec fn block_answer(r: HttpResponse, id: Seq<char>, rendered: Result<Option<(String, String)>, String>, nav: Seq<NavEntry>) -> bool {
    match rendered {
        Ok(Some((title, md))) => serves(r, 200, page_html(title@, block_body(md@), nav, id)),
        Ok(None) => serves(r, 404, page_html("Not found"@, error_html("Block not found: "@ + id), nav, ""@)),
        Err(msg) => serves(r, 200, page_html("Error"@, error_html(msg@), nav, ""@)),
    }
}

/// The search page for `query` given the backend's rows, with the sidebar `nav`.
pub open spec fn search_answer(r: HttpResponse, query: Seq<char>, rows: Result<Vec<ResultRow>, String>, nav: Seq<NavEntry>) -> bool {
    match rows {
        Ok(v) => serves(r, 200, page_html("Search"@, search_html(query, v@), nav, ""@)),
        Err(msg) => serves(r, 200, page_html("Search"@, error_html(msg@), nav, ""@)),
    }
}

/// The search page before a query is typed, with the sidebar `nav`.
pub open spec fn empty_search_answer(r: HttpResponse, nav: Seq<NavEntry>) -> bool {
    serves(r, 200, page_html("Search"@, "<h1>Search</h1><p class=\"muted\">Type a query above.</p>"@, nav, ""@))
}

/// The page for an unknown path, with the sidebar `nav`.
pub open spec fn not_found_answer(r: HttpResponse, nav: Seq<NavEntry>) -> bool {
    serves(r, 404, page_html("Not found"@, error_html("Not found"@), nav, ""@))
}

/// The home response given the sidebar entries: a redirect to the first entry's block, or a
/// page saying there are no blocks (or showing the backend's error). `nav` is the sidebar.
pub fn home_response(entries: &Result<Vec<NavEntry>, String>, nav: &[NavEntry]) -> (r: HttpResponse)
    ensures
        home_answer(r, *entries, nav@),
{
    match entries {
        Ok(e) => {
            if e.len() > 0 {
                let mut loc: Vec<char> = Vec::new();
                push_str(&mut loc, "/block/");
                push_str(&mut loc, e[0].id.as_str());
                HttpResponse::redirect(string_from(&loc).as_str())
            } else {
                HttpResponse::html(
                    page_document(
                        "mdkb",
                        "<h1>mdkb</h1><p class=\"muted\">No blocks yet.</p>",
                        nav,
                        "",
                    ).as_str(),
                )
            }
        },
        Err(msg) => {
            let body = error_page(msg.as_str());
            HttpResponse::html(page_document("mdkb", body.as_str(), nav, "").as_str())
        },
    }
}

/// The HTML shown for a block's Markdown: rendered, with `mdkb:` links pointed at `/block/`.
pub open spec fn block_body(md: Seq<char>) -> Seq<char> {
    rewritten_links(decorated(cmark_html(md)), "/block/"@)
}

/// The block response given what the backend rendered for `id`.
pub fn block_response(id: &str, rendered: &Result<Option<(String, String)>, String>, nav: &[NavEntry]) -> (r: HttpResponse)
    ensures
        block_answer(r, id@, *rendered, nav@),
{
    match rendered {
        Ok(Some((title, md))) => {
            let html = markdown_to_html(md.as_str());
            let body = rewrite_mdkb_links(html.as_str(), "/block/");
            HttpResponse::html(page_document(title.as_str(), body.as_str(), nav, id).as_str())
        },
        Ok(None) => {
            let mut msg: Vec<char> = Vec::new();
            push_str(&mut msg, "Block not found: ");
            push_str(&mut msg, id);
            let body = error_page(string_from(&msg).as_str());
            HttpResponse::not_found(page_document("Not found", body.as_str(), nav, "").as_str())
        },
        Err(msg) => {
            let body = error_page(msg.as_str());
            HttpResponse::html(page_document("Error", body.as_str(), nav, "").as_str())
        },
    }
}

/// The search response for a non-blank query given the backend's rows.
pub fn search_response(query: &str, rows: &Result<Vec<ResultRow>, String>, nav: &[NavEntry]) -> (r: HttpResponse)
    ensures
        search_answer(r, query@, *rows, nav@),
{
    match rows {
        Ok(v) => {
            let body = search_results_html(query, v.as_slice());
            HttpResponse::html(page_document("Search", body.as_str(), nav, "").as_str())
        },
        Err(msg) => {
            let body = error_page(msg.as_str());
            HttpResponse::html(page_document("Search", body.as_str(), nav, "").as_str())
        },
    }
}

/// The search page before a query is typed.
pub fn empty_search_response(nav: &[NavEntry]) -> (r: HttpResponse)
    ensures
        empty_search_answer(r, nav@),
{
    HttpResponse::html(
        page_document(
            "Search",
            "<h1>Search</h1><p class=\"muted\">Type a query above.</p>",
            nav,
            "",
        ).as_str(),
    )
}

/// The query text of a search request (empty when absent).
pub open spec fn search_query(req: HttpRequest) -> Seq<char> {
    match lookup_last(pairs_view(req.query.pairs@), "q"@) {
        Some(q) => q,
        None => seq![],
    }
}

/// Where a request goes: refused (not GET), the home page, the search page before a query
/// (blank `q`), a search for the raw `q`, the block whose id is the path after `/block/`, or
/// the not-found page.
pub enum Route {
    NotGet,
    Home,
    EmptySearch,
    Search(Seq<char>),
    Block(Seq<char>),
    NotFound,
}

/// The route of `req`.
pub open spec fn route_of(req: HttpRequest) -> Route {
    if req.method@ != "GET"@ {
        Route::NotGet
    } else if req.path@ == "/"@ {
        Route::Home
    } else if req.path@ == "/search"@ {
        if trim(search_query(req)).len() == 0 {
            Route::EmptySearch
        } else {
            Route::Search(search_query(req))
        }
    } else if crate::text::starts_with(req.path@, "/block/"@) {
        Route::Block(req.path@.skip(7))
    } else {
        Route::NotFound
    }
}

/// Handle a parsed request. Only GET is served: `/` redirects to the first sidebar block (or
/// says there are none), `/search` lists matches for `q`, `/block/<id>` shows that block, and
/// anything else is a 404 page.
pub fn handle<B: Backend>(backend: &B, req: &HttpRequest) -> (r: HttpResponse)
    ensures
        match route_of(*req) {
            Route::NotGet => serves(r, 404, error_html("Only GET is supported"@)),
            Route::Home => exists|e: Result<Vec<NavEntry>, String>, nav: Seq<NavEntry>| #[trigger] home_answer(r, e, nav),
            Route::EmptySearch => exists|nav: Seq<NavEntry>| #[trigger] empty_search_answer(r, nav),
            Route::Search(q) => exists|rows: Result<Vec<ResultRow>, String>, nav: Seq<NavEntry>|
                #[trigger] search_answer(r, q, rows, nav),
            Route::Block(id) => exists|x: Result<Option<(String, String)>, String>, nav: Seq<NavEntry>|
                #[trigger] block_answer(r, id, x, nav),
            Route::NotFound => exists|nav: Seq<NavEntry>| #[trigger] not_found_answer(r, nav),
        },
{
    if !crate::text::str_eq(req.method.as_str(), "GET") {
        return get_only_response();
    }
    let path = chars_of(req.path.as_str());
    proof {
        reveal_strlit("/");
        reveal_strlit("/search");
        assert("/"@.len() == 1);
        assert("/search"@.len() == 7);
        assert("/"@ != "/search"@);
    }
    if crate::text::str_eq(req.path.as_str(), "/") {
        let entries = backend.nav_entries();
        let nav = match &entries {
            Ok(e) if e.len() > 0 => Vec::new(),
            _ => nav_of(backend.nav_entries()),
        };
        return home_response(&entries, nav.as_slice());
    }
    if crate::text::str_eq(req.path.as_str(), "/search") {
        let q: &str = match req.query.get("q") {
            Some(q) => q.as_str(),
            None => "",
        };
        let qv = chars_of(q);
        let (a, b) = trim_bounds(&qv, 0, qv.len());
        assert(qv@.subrange(0, qv@.len() as int) =~= qv@);
        if b <= a {
            let nav = nav_of(backend.nav_entries());
            return empty_search_response(nav.as_slice());
        }
        proof {
            reveal_strlit("q");
            reveal_strlit("");
            assert(search_query(*req) == q@);
            assert(qv@.subrange(a as int, b as int).len() > 0);
        }
        let rows = backend.search(q);
        let nav = nav_of(backend.nav_entries());
        let r = search_response(q, &rows, nav.as_slice());
        assert(search_answer(r, q@, rows, nav@));
        assert(route_of(*req) is Search && route_of(*req)->Search_0 == q@);
        return r;
    }
    assert(path@.subrange(0, path@.len() as int) =~= path@);
    if crate::text::has_prefix_str(&path, 0, path.len(), "/block/") {
        let prefix = chars_of("/block/");
        proof {
            reveal_strlit("/block/");
        }
        let id = string_from(&copy_range(&path, prefix.len(), path.len()));
        assert(id@ =~= req.path@.skip(7));
        let rendered = backend.render_block(id.as_str());
        let nav = nav_of(backend.nav_entries());
        let r = block_response(id.as_str(), &rendered, nav.as_slice());
        assert(block_answer(r, id@, rendered, nav@));
        assert(route_of(*req) is Block && route_of(*req)->Block_0 == id@);
        return r;
    }
    let nav = nav_of(backend.nav_entries());
    not_found_response(nav.as_slice())
}

} // verus!
