use mdkb::fts::to_fts_query;

#[test]
fn to_fts_query_or_joins_and_sanitizes() {
    assert_eq!(
        to_fts_query("restart the server"),
        "\"restart\" OR \"the\" OR \"server\""
    );
    assert_eq!(to_fts_query("single"), "\"single\"");
    assert_eq!(to_fts_query("  -- ,. "), "");
}

#[test]
fn to_fts_query_supports_quoted_phrases() {
    assert_eq!(
        to_fts_query("\"a fact lives in exactly one block\""),
        "\"a fact lives in exactly one block\""
    );
    assert_eq!(
        to_fts_query("\"exact phrase\" loose word"),
        "\"exact phrase\" OR \"loose\" OR \"word\""
    );
    assert_eq!(to_fts_query("foo \"bar baz"), "\"foo\" OR \"bar baz\"");
    assert_eq!(
        to_fts_query("\"exactly **one** block\""),
        "\"exactly one block\""
    );
}

#[test]
fn to_fts_query_drops_operators_and_keeps_unicode_words() {
    assert_eq!(to_fts_query("a NEAR(b) c*"), "\"a\" OR \"NEAR\" OR \"b\" OR \"c\"");
    assert_eq!(to_fts_query("über straße"), "\"über\" OR \"straße\"");
    assert_eq!(to_fts_query("\"\" x"), "\"x\"");
    assert_eq!(to_fts_query(""), "");
}
