use mdkb::blockfile::parse_block;
use mdkb::clock::{parse_query_date, query_date_from, unix_ms_to_rfc3339};
use mdkb::id::BlockId;
use mdkb::index::BlockRecord;
use mdkb::query::{parse_is_safe, SearchQuery};

#[test]
fn parse_plain_text_only() {
    let q = SearchQuery::parse("ingress timeout");
    assert_eq!(q.text.as_deref(), Some("ingress timeout"));
    assert!(q.tags.is_empty());
    assert_eq!(q.lang, None);
}

#[test]
fn parse_extracts_tag_lang_and_text() {
    let q = SearchQuery::parse("tag:k8s lang:Kusto cluster query");
    assert_eq!(q.text.as_deref(), Some("cluster query"));
    assert_eq!(q.tags, vec!["k8s"]);
    assert_eq!(q.lang.as_deref(), Some("kusto"));
}

#[test]
fn parse_hash_shorthand_and_code_alias() {
    let q = SearchQuery::parse("#networking code:rust retry");
    assert_eq!(q.tags, vec!["networking"]);
    assert_eq!(q.lang.as_deref(), Some("rust"));
    assert_eq!(q.text.as_deref(), Some("retry"));
}

#[test]
fn parse_dedupes_tags_and_handles_no_free_text() {
    let q = SearchQuery::parse("tag:k8s #K8S tag:net");
    assert_eq!(q.tags, vec!["k8s", "net"]);
    assert_eq!(q.text, None);
}

#[test]
fn parse_bare_hash_and_empty_operator_stay_text() {
    let q = SearchQuery::parse("# tag: heading");
    assert_eq!(q.tags, Vec::<String>::new());
    assert_eq!(q.lang, None);
    assert_eq!(q.text.as_deref(), Some("# tag: heading"));
}

#[test]
fn parse_date_operators_normalize_or_clear() {
    let q = SearchQuery::parse("CREATED:AFTER:2026-06-24 updated:before:2026-06-24T02:30:00+05:00 notes");
    assert_eq!(q.created_after.as_deref(), Some("2026-06-24T00:00:00Z"));
    assert_eq!(q.updated_before.as_deref(), Some("2026-06-23T21:30:00Z"));
    assert_eq!(q.text.as_deref(), Some("notes"));
    assert!(q.has_date_filter());
    let q = SearchQuery::parse("created:before:2026-06-24 created:before:garbage");
    assert_eq!(q.created_before, None);
    assert!(!q.has_date_filter());
}

#[test]
fn hash_token_with_punctuation_stays_text() {
    let q = SearchQuery::parse("#a/b-c_d #a.b");
    assert_eq!(q.tags, vec!["a/b-c_d"]);
    assert_eq!(q.text.as_deref(), Some("#a.b"));
}

#[test]
fn effective_limit_defaults_to_fifty() {
    let mut q = SearchQuery::text("x");
    assert_eq!(q.text.as_deref(), Some("x"));
    assert_eq!(q.effective_limit(), 50);
    q.limit = 7;
    assert_eq!(q.effective_limit(), 7);
}

#[test]
fn matches_dates_is_inclusive_below_exclusive_above() {
    let id = BlockId::parse("01J5Z8Q4N2M3K7T9V6W0X1Y300").unwrap();
    let b = parse_block(id, "x\n");
    let mut rec = BlockRecord::from_block(&b, 0);
    rec.created = Some("2026-06-24T00:00:00Z".into());
    rec.updated = None;
    let mut q = SearchQuery::default();
    assert!(q.matches_dates(&rec));
    q.created_after = Some("2026-06-24T00:00:00Z".into());
    assert!(q.matches_dates(&rec));
    q.created_before = Some("2026-06-24T00:00:00Z".into());
    assert!(!q.matches_dates(&rec));
    q.created_before = None;
    q.updated_after = Some("2000-01-01T00:00:00Z".into());
    assert!(!q.matches_dates(&rec), "a block never updated cannot meet an updated bound");
}

#[test]
fn ulid_millis_decode_to_a_date() {
    assert_eq!(unix_ms_to_rfc3339(0).unwrap(), "1970-01-01T00:00:00Z");
    assert_eq!(unix_ms_to_rfc3339(1_999).unwrap(), "1970-01-01T00:00:01Z");
    let s = unix_ms_to_rfc3339(1_782_621_000_000).unwrap();
    assert_eq!(parse_query_date(&s).unwrap(), s);
}

#[test]
fn query_dates_normalize_and_compare_lexically() {
    let bare = parse_query_date("2026-06-24").unwrap();
    assert_eq!(bare, "2026-06-24T00:00:00Z");
    let full = parse_query_date("2026-06-24T02:30:00Z").unwrap();
    assert_eq!(full, "2026-06-24T02:30:00Z");
    assert!(bare < full);
    assert!(parse_query_date("not-a-date").is_none());
    assert!(parse_query_date("2026-13-40").is_none());
}

#[test]
fn offset_query_dates_normalize_to_utc() {
    assert_eq!(
        parse_query_date("2026-06-24T02:30:00+05:00").unwrap(),
        "2026-06-23T21:30:00Z"
    );
    assert_eq!(
        parse_query_date("2026-06-24T02:30:00-08:00").unwrap(),
        "2026-06-24T10:30:00Z"
    );
    assert_eq!(
        parse_query_date("2026-06-24T10:00:00Z").unwrap(),
        parse_query_date("2026-06-24T02:30:00-07:30").unwrap()
    );
}

#[test]
fn bare_dates_check_the_calendar() {
    assert_eq!(parse_query_date(" 2024-02-29 ").as_deref(), Some("2024-02-29T00:00:00Z"));
    assert!(parse_query_date("2023-02-29").is_none());
    assert_eq!(parse_query_date("+2026-+6-05").as_deref(), Some("2026-06-05T00:00:00Z"));
    assert!(parse_query_date("-2026-06-05").is_none());
    assert!(parse_query_date("10000-01-01").is_none());
    assert_eq!(parse_query_date("5-1-2").as_deref(), Some("0005-01-02T00:00:00Z"));
}

#[test]
fn parse_is_safe_flags_a_token_cut_inside_a_character() {
    assert!(parse_is_safe("tag:rust deploy lang:sh"));
    assert!(parse_is_safe("héllo wörld"));
    // Byte 4 of `abcé` falls inside the two-byte `é`.
    assert!(!parse_is_safe("ok abcé"));
}

#[test]
fn query_date_from_prefers_the_timestamp_reading() {
    assert_eq!(
        query_date_from("whatever", Some(Some("2024-03-01T00:00:00Z".to_string()))),
        Some("2024-03-01T00:00:00Z".to_string())
    );
    assert_eq!(query_date_from("2024-03-05", Some(None)), None);
    assert_eq!(query_date_from("2024-03-05", None), Some("2024-03-05T00:00:00Z".to_string()));
    assert_eq!(query_date_from("2024-02-30", None), None);
    assert_eq!(query_date_from("not a date", None), None);
}
