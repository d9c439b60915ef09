use mdkb::document::{classify, frontmatter, BlockKind, Document, IdCodec, TagSource};

/// Markers written as `<!-- mdkb:ID -->`, alone on their line.
struct CommentCodec;

impl IdCodec for CommentCodec {
    fn marker_only(&self, line: &str) -> Option<String> {
        let t = line.trim();
        let inner = t.strip_prefix("<!-- mdkb:")?.strip_suffix(" -->")?;
        if inner.is_empty() {
            None
        } else {
            Some(inner.to_string())
        }
    }

    fn encode(&self, id: &str) -> String {
        encode(id)
    }
}

/// The text without its marker lines.
fn strip_markers(text: &str) -> String {
    text.lines()
        .filter(|l| CommentCodec.marker_only(l).is_none())
        .map(|l| format!("{l}\n"))
        .collect()
}

fn encode(id: &str) -> String {
    format!("<!-- mdkb:{id} -->")
}

fn parse(src: &str) -> Document {
    Document::parse_with(&CommentCodec, src)
}

fn kinds(doc: &Document) -> Vec<BlockKind> {
    doc.blocks.iter().map(|b| b.kind).collect()
}

fn tag_names(doc: &Document, k: usize) -> Vec<&str> {
    doc.blocks[k].tags.iter().map(|t| t.name.as_str()).collect()
}

const ID: &str = "01HZX3J8Q6V5K2M9N4P7R1S0TW";
const ID2: &str = "01HZX3J8Q6V5K2M9N4P7R1S0TX";

#[test]
fn parses_basic_block_kinds() {
    let src = "# Title\n\nA paragraph here.\n\n- item one\n- item two\n\n> a quote\n\n---\n";
    let doc = parse(src);
    assert_eq!(
        kinds(&doc),
        vec![
            BlockKind::Heading { level: 1 },
            BlockKind::Paragraph,
            BlockKind::ListItem,
            BlockKind::ListItem,
            BlockKind::Quote,
            BlockKind::ThematicBreak,
        ]
    );
}

#[test]
fn code_fence_captures_lang_and_is_one_block() {
    let src = "```kusto\nStormEvents\n| take 10\n```\n";
    let doc = parse(src);
    assert_eq!(doc.blocks.len(), 1);
    let b = &doc.blocks[0];
    assert_eq!(b.kind, BlockKind::CodeFence);
    assert_eq!(b.lang.as_deref(), Some("kusto"));
    assert_eq!(b.content, "```kusto\nStormEvents\n| take 10\n```");
    assert!(b
        .tags
        .iter()
        .any(|t| t.name == "kusto" && t.source == TagSource::Lang));
}

#[test]
fn code_fence_does_not_split_on_blank_lines() {
    let src = "```\nline 1\n\nline 3\n```\n";
    let doc = parse(src);
    assert_eq!(doc.blocks.len(), 1);
    assert_eq!(doc.blocks[0].kind, BlockKind::CodeFence);
}

#[test]
fn lineage_tracks_heading_hierarchy() {
    let src = "# A\n\n## B\n\ntext under B\n\n# C\n\ntext under C\n";
    let doc = parse(src);
    let para_b = doc.blocks.iter().find(|b| b.content == "text under B").unwrap();
    assert_eq!(para_b.lineage, vec!["A".to_string(), "B".to_string()]);
    let para_c = doc.blocks.iter().find(|b| b.content == "text under C").unwrap();
    assert_eq!(para_c.lineage, vec!["C".to_string()]);
    let hb = doc
        .blocks
        .iter()
        .find(|b| matches!(b.kind, BlockKind::Heading { level: 2 }))
        .unwrap();
    assert_eq!(hb.lineage, vec!["A".to_string()]);
}

#[test]
fn contextual_text_prepends_lineage() {
    let src = "# Server\n\n## Nginx\n\nrestart it\n";
    let doc = parse(src);
    let b = doc.blocks.iter().find(|b| b.content == "restart it").unwrap();
    assert_eq!(b.contextual_text(), "Server > Nginx\n\nrestart it");
}

#[test]
fn frontmatter_tags_apply_to_blocks() {
    let src = "---\ntitle: x\ntags: [kusto, ops]\n---\n\nsome note\n";
    let doc = parse(src);
    assert!(doc.frontmatter.is_some());
    let b = &doc.blocks[0];
    assert!(b
        .tags
        .iter()
        .any(|t| t.name == "kusto" && t.source == TagSource::Frontmatter));
    assert!(b.tags.iter().any(|t| t.name == "ops"));
}

#[test]
fn frontmatter_block_list_tags() {
    let src = "---\ntags:\n  - alpha\n  - beta\n---\n\nbody\n";
    let doc = parse(src);
    let names = tag_names(&doc, 0);
    assert!(names.contains(&"alpha"));
    assert!(names.contains(&"beta"));
}

#[test]
fn inline_tags_detected_outside_code() {
    let src = "A note about #nginx and #kql/ops here.\n";
    let doc = parse(src);
    let names = tag_names(&doc, 0);
    assert!(names.contains(&"nginx"));
    assert!(names.contains(&"kql/ops"));
}

#[test]
fn heading_hash_is_not_a_tag() {
    let src = "## Heading Title\n";
    let doc = parse(src);
    assert!(doc.blocks[0].tags.is_empty());
}

#[test]
fn existing_marker_binds_to_following_block() {
    let src = format!("{}\nthe paragraph\n", encode(ID));
    let doc = parse(&src);
    assert_eq!(doc.blocks.len(), 1);
    assert_eq!(doc.blocks[0].id.as_deref(), Some(ID));
    assert_eq!(doc.blocks[0].content, "the paragraph");
    assert_eq!(doc.blocks[0].marker_line, Some(0));
}

#[test]
fn marker_terminates_preceding_paragraph() {
    let src = format!("para one\n{}\npara two\n", encode(ID));
    let doc = parse(&src);
    assert_eq!(doc.blocks.len(), 2);
    assert_eq!(doc.blocks[0].content, "para one");
    assert_eq!(doc.blocks[1].content, "para two");
    assert_eq!(doc.blocks[1].id.as_deref(), Some(ID));
}

#[test]
fn empty_document_has_no_blocks() {
    let doc = parse("");
    assert!(doc.blocks.is_empty());
    assert!(doc.with_assigned_ids(&|id: &String| CommentCodec.encode(id), &Vec::new()).is_none());
}

#[test]
fn assign_ids_is_idempotent_and_minimal() {
    let src = "# Title\n\nbody paragraph\n";
    let doc = parse(src);
    let ids = vec![ID.to_string(), ID2.to_string()];
    let assigned = doc.with_assigned_ids(&|id: &String| CommentCodec.encode(id), &ids).expect("ids to assign");
    // Re-parsing finds persisted ids and assigns nothing further.
    let doc2 = parse(&assigned);
    assert!(doc2.blocks.iter().all(|b| b.id.is_some()));
    assert!(doc2.with_assigned_ids(&|id: &String| CommentCodec.encode(id), &Vec::new()).is_none());
    // The ids written are the ones recorded, in block order.
    let ids2: Vec<String> = doc2.blocks.iter().map(|b| b.id.clone().unwrap()).collect();
    assert_eq!(ids2, ids);
    // Only marker lines were added; stripping them recovers the original content lines.
    let stripped = strip_markers(&assigned);
    let recovered: Vec<&str> = stripped.lines().filter(|l| !l.trim().is_empty()).collect();
    let original: Vec<&str> = src.lines().filter(|l| !l.trim().is_empty()).collect();
    assert_eq!(recovered, original);
}

#[test]
fn assign_preserves_content_exactly_between_markers() {
    let src = "first para\n\nsecond para\n";
    let doc = parse(src);
    let ids = vec![ID.to_string(), ID2.to_string()];
    let assigned = doc.with_assigned_ids(&|id: &String| CommentCodec.encode(id), &ids).unwrap();
    let doc2 = parse(&assigned);
    assert_eq!(doc2.blocks[0].content, "first para");
    assert_eq!(doc2.blocks[1].content, "second para");
}

#[test]
fn assigned_markers_keep_the_block_indentation() {
    let doc = parse("para\n\n  - item\n");
    let out = doc.assign_markers(&vec!["M1".to_string(), "M2".to_string()]).unwrap();
    assert_eq!(out, "M1\npara\n\n  M2\n  - item\n");
    assert_eq!(doc.blocks[1].content_start, 6);
}

// Further cases.

#[test]
fn block_finds_the_first_block_with_a_marker_id() {
    let src = format!("{}\nfirst\n\nsecond\n", encode(ID));
    let doc = parse(&src);
    assert_eq!(doc.block(ID).map(|b| b.content.as_str()), Some("first"));
    assert!(doc.block(ID2).is_none());
}

#[test]
fn classify_ends_a_list_item_at_its_indented_continuation() {
    let lines: Vec<String> = ["- one", "  more", "- two", "", "text"].iter().map(|s| s.to_string()).collect();
    let markers = vec![false; lines.len()];
    assert_eq!(classify(&lines, &markers, 0), (BlockKind::ListItem, None, 2));
    assert_eq!(classify(&lines, &markers, 2), (BlockKind::ListItem, None, 3));
    assert_eq!(classify(&lines, &markers, 4), (BlockKind::Paragraph, None, 5));
}

#[test]
fn classify_reads_headings_fences_quotes_and_html() {
    let lines: Vec<String> = [
        "### Deep ###",
        "~~~~ rust extra",
        "code",
        "~~~",
        "~~~~",
        "> q1",
        ">q2",
        "<div>",
        "x",
        "marker",
        "para",
    ]
    .iter()
    .map(|s| s.to_string())
    .collect();
    let mut markers = vec![false; lines.len()];
    markers[9] = true;
    assert_eq!(classify(&lines, &markers, 0), (BlockKind::Heading { level: 3 }, None, 1));
    assert_eq!(
        classify(&lines, &markers, 1),
        (BlockKind::CodeFence, Some("rust".to_string()), 5)
    );
    assert_eq!(classify(&lines, &markers, 5), (BlockKind::Quote, None, 7));
    assert_eq!(classify(&lines, &markers, 7), (BlockKind::Html, None, 9));
    // A paragraph runs to the end when nothing interrupts it.
    assert_eq!(classify(&lines, &markers, 10), (BlockKind::Paragraph, None, 11));
}

#[test]
fn frontmatter_needs_a_closing_line() {
    let open: Vec<String> = ["---", "tags: a b", "body"].iter().map(|s| s.to_string()).collect();
    assert!(frontmatter(&open).is_none());
    let closed: Vec<String> =
        ["---", "tags: a, 'b' #c a", "..."].iter().map(|s| s.to_string()).collect();
    assert_eq!(
        frontmatter(&closed),
        Some((2, vec!["a".to_string(), "b".to_string(), "c".to_string()]))
    );
}

#[test]
fn crlf_lines_and_lineage_reset() {
    let doc = parse("## Two\r\n\r\n# One\r\nbody text\r\n");
    assert_eq!(kinds(&doc), vec![BlockKind::Heading { level: 2 }, BlockKind::Heading { level: 1 }, BlockKind::Paragraph]);
    assert_eq!(doc.blocks[2].content, "body text");
    assert_eq!(doc.blocks[2].lineage, vec!["One".to_string()]);
    assert!(doc.blocks[1].lineage.is_empty());
}

#[test]
fn block_offsets_delimit_their_content() {
    let src = "# T\u{e9}\r\n\r\npara \u{2014} one\r\nstill one\r\n\r\n```\r\ncode\r\n```\r\n";
    let doc = parse(src);
    let chars: Vec<char> = src.chars().collect();
    assert_eq!(doc.blocks.len(), 3);
    for b in &doc.blocks {
        let s: String = chars[b.content_start..b.content_end].iter().collect();
        assert_eq!(s, b.content);
        assert_eq!(&src[b.byte_start..b.byte_end], b.content);
    }
    assert_eq!(doc.blocks[1].byte_start, 9);
    assert_eq!(doc.blocks[1].content_start, 8);
    assert!(doc.blocks.windows(2).all(|w| w[0].end_line <= w[1].first_line));
    assert_eq!(doc.blocks[1].content, "para \u{2014} one\r\nstill one");
    assert_eq!(doc.blocks[2].content, "```\r\ncode\r\n```");
}
