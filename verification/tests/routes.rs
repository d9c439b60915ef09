use mdkb::http::{HttpRequest, QueryParams};
use mdkb::routes::{handle, Backend};
use mdkb::view::{NavEntry, ResultRow};

struct MockBackend {
    blocks: Vec<(String, String)>,
}

impl Backend for MockBackend {
    fn nav_entries(&self) -> Result<Vec<NavEntry>, String> {
        Ok(self
            .blocks
            .iter()
            .map(|(id, title)| NavEntry { id: id.clone(), title: title.clone() })
            .collect())
    }
    fn render_block(&self, id: &str) -> Result<Option<(String, String)>, String> {
        match self.blocks.iter().find(|(bid, _)| bid == id) {
            Some((_, title)) => Ok(Some((title.clone(), format!("# {title}\n\nbody of {id}\n")))),
            None => Ok(None),
        }
    }
    fn search(&self, query: &str) -> Result<Vec<ResultRow>, String> {
        Ok(vec![ResultRow {
            id: "x".into(),
            title: "Arch".into(),
            tags: vec!["top".into()],
            content: format!("a block matching {query}"),
        }])
    }
}

fn req(path: &str) -> HttpRequest {
    HttpRequest { method: "GET".into(), path: path.into(), query: QueryParams::new() }
}

fn backend() -> MockBackend {
    MockBackend {
        blocks: vec![("01AAA".into(), "Arch".into()), ("01BBB".into(), "Queries".into())],
    }
}

#[test]
fn home_redirects_to_first_block() {
    let r = handle(&backend(), &req("/"));
    assert_eq!(r.status, 302);
    assert_eq!(r.location.as_deref(), Some("/block/01AAA"));
}

#[test]
fn block_renders_markdown_into_document() {
    let r = handle(&backend(), &req("/block/01BBB"));
    let body = String::from_utf8_lossy(&r.body);
    assert_eq!(r.status, 200);
    assert!(body.contains("<!DOCTYPE html>"));
    assert!(body.contains("body of 01BBB"));
    assert!(body.contains("class=\"active\""));
}

#[test]
fn missing_block_is_404() {
    let r = handle(&backend(), &req("/block/nope"));
    assert_eq!(r.status, 404);
}

#[test]
fn search_route_uses_query_param() {
    let mut request = req("/search");
    request.query.insert("q".into(), "restart".into());
    let r = handle(&backend(), &request);
    let body = String::from_utf8_lossy(&r.body);
    assert!(body.contains("matching restart"));
    assert!(body.contains("href=\"/block/x\""));
}

#[test]
fn non_get_is_rejected() {
    let mut request = req("/");
    request.method = "POST".into();
    assert_eq!(handle(&backend(), &request).status, 404);
}

#[test]
fn blank_search_asks_for_a_query_and_unknown_paths_are_404() {
    let mut request = req("/search");
    request.query.insert("q".into(), "   ".into());
    let r = handle(&backend(), &request);
    assert_eq!(r.status, 200);
    assert!(String::from_utf8_lossy(&r.body).contains("Type a query above."));
    assert_eq!(handle(&backend(), &req("/elsewhere")).status, 404);
    let empty = MockBackend { blocks: vec![] };
    let home = handle(&empty, &req("/"));
    assert_eq!(home.status, 200);
    assert!(String::from_utf8_lossy(&home.body).contains("No blocks yet."));
}
