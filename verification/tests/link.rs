use mdkb::link::extract_references;

#[test]
fn extracts_links_and_embeds_in_order() {
    let content = "See [[alpha]] and embed ![[01ARZ3NDEKTSV4RRFFQ69G5FAV]] here.";
    let refs = extract_references(content);
    assert_eq!(refs.len(), 2);
    assert!(!refs[0].embed);
    assert_eq!(refs[0].target, "alpha");
    assert!(refs[1].embed);
    assert_eq!(refs[1].target, "01ARZ3NDEKTSV4RRFFQ69G5FAV");
}

#[test]
fn parses_display_alias() {
    let refs = extract_references("[[some-block|click here]]");
    assert_eq!(refs[0].target, "some-block");
    assert_eq!(refs[0].display.as_deref(), Some("click here"));
    assert_eq!(refs[0].label(), "click here");
}

#[test]
fn label_falls_back_to_target() {
    let refs = extract_references("[[the-target]]");
    assert_eq!(refs[0].label(), "the-target");
}

#[test]
fn ignores_single_brackets_and_empty() {
    assert!(extract_references("a [normal](link) and [single] brackets").is_empty());
    assert!(extract_references("[[]]").is_empty());
    assert!(extract_references("[[  ]]").is_empty());
}

#[test]
fn ignores_directives_inside_inline_code() {
    let refs = extract_references("Embed with `![[id]]` and reference with `[[id]]`.");
    assert!(refs.is_empty(), "got: {refs:?}");
}

#[test]
fn ignores_directives_inside_fenced_code() {
    let content = "Example:\n\n```\n![[01ARZ3NDEKTSV4RRFFQ69G5FAV]]\n[[some-title]]\n```\n";
    assert!(extract_references(content).is_empty());
}

#[test]
fn finds_real_directives_alongside_code_examples() {
    let content =
        "See [[alpha]].\n\n```md\n![[not-a-real-embed]]\n```\n\nAlso `[[inline-example]]`.";
    let refs = extract_references(content);
    assert_eq!(refs.len(), 1, "got: {refs:?}");
    assert_eq!(refs[0].target, "alpha");
    assert!(!refs[0].embed);
}

#[test]
fn spans_are_byte_ranges_of_the_whole_directive() {
    let content = "é [[ a | b ]] x";
    let refs = extract_references(content);
    assert_eq!(refs.len(), 1);
    assert_eq!(refs[0].span.start, 3);
    assert_eq!(refs[0].span.end, 14);
    assert_eq!(&content[refs[0].span.clone()], "[[ a | b ]]");
    assert_eq!(refs[0].target, "a");
    assert_eq!(refs[0].display.as_deref(), Some("b"));
}
