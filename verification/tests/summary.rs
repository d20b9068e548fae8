use mdq::{Document, SummaryKind};

const FIRST_BLOCK_KINDS: &str = "# Paragraph\nPlain paragraph summary text.\n\n# Blockquote\n> quoted line one\n> quoted line two\n\n# List\n- first item\n- second item\n  - nested item\n- third item\n\n# Code\n```rust\nfn main() {\n    println!(\"hi\");\n}\n```\n\n# Table\n| name | value |\n| --- | --- |\n| a | 1 |\n| b | 2 |\n\n# Image\n![diagram](images/diagram.png)\n";

#[test]
fn summary_block_classifies_each_supported_first_block_kind() {
    let bytes = FIRST_BLOCK_KINDS.as_bytes().to_vec();
    let document = Document::from_bytes("fixture.md", &bytes).expect("fixture should decode");
    let sections = document.section_index();

    let expected = [
        ("s1", SummaryKind::Paragraph, 2, 2),
        ("s2", SummaryKind::Blockquote, 5, 6),
        ("s3", SummaryKind::List, 9, 12),
        ("s4", SummaryKind::Code, 15, 19),
        ("s5", SummaryKind::Table, 22, 25),
        ("s6", SummaryKind::Image, 28, 28),
    ];

    for (id, kind, start_line, end_line) in expected {
        let block = sections
            .by_id(id)
            .expect("fixture section should exist")
            .summary_block(&document)
            .expect("fixture section should have a summary block");

        assert_eq!(block.kind, kind, "unexpected kind for {id}");
        assert_eq!(
            block.start_line, start_line,
            "unexpected start line for {id}"
        );
        assert_eq!(block.end_line, end_line, "unexpected end line for {id}");
    }
}

#[test]
fn summary_block_skips_blank_lines_and_thematic_breaks() {
    let document = Document::from_bytes(
        "fixture.md",
        b"# Intro\n\n---\n***\n> quoted line\n> second line\n",
    )
    .expect("fixture should decode");
    let sections = document.section_index();
    let section = sections.by_id("s1").expect("section should exist");

    let block = section
        .summary_block(&document)
        .expect("section should have a summary block");

    assert_eq!(block.kind, SummaryKind::Blockquote);
    assert_eq!(block.start_line, 5);
    assert_eq!(block.end_line, 6);
}

#[test]
fn summary_block_stops_before_first_nested_heading() {
    let document = Document::from_bytes(
        "fixture.md",
        b"# Parent\n\n## Child\nchild body\n\n# Parent With Body\nintro line\n## Nested\nchild body\n",
    )
    .expect("fixture should decode");
    let sections = document.section_index();

    assert_eq!(
        sections
            .by_id("s1")
            .expect("section should exist")
            .summary_block(&document),
        None
    );

    let block = sections
        .by_id("s2")
        .expect("section should exist")
        .summary_block(&document)
        .expect("section should have a summary block");
    assert_eq!(block.kind, SummaryKind::Paragraph);
    assert_eq!(block.start_line, 7);
    assert_eq!(block.end_line, 7);
}

#[test]
fn code_summary_uses_full_opening_fence_length_when_parsing_language() {
    let document = Document::from_bytes(
        "fixture.md",
        b"# Backticks\n````rust extra\nprintln!(\"hi\");\n````\n\n# Tildes\n~~~~python\nprint('hi')\n~~~~\n",
    )
    .expect("fixture should decode");
    let sections = document.section_index();

    let backticks = sections
        .by_id("s1")
        .expect("section should exist")
        .summary_block(&document)
        .expect("section should have a summary block");
    assert_eq!(backticks.kind, SummaryKind::Code);
    assert_eq!(backticks.payload(), "rust, 1 lines");

    let tildes = sections
        .by_id("s2")
        .expect("section should exist")
        .summary_block(&document)
        .expect("section should have a summary block");
    assert_eq!(tildes.kind, SummaryKind::Code);
    assert_eq!(tildes.payload(), "python, 1 lines");
}

fn summary_of(text: &str, id: &str) -> Option<(String, String)> {
    let doc = Document::from_bytes("x.md", text.as_bytes()).expect("valid text");
    let index = doc.section_index();
    let section = index.by_id(id).expect("section");
    section
        .summary_block(&doc)
        .map(|b| (b.tag().to_owned(), b.payload()))
}

#[test]
fn payloads_of_each_kind() {
    let expected = [
        ("s1", "P", "Plain paragraph summary text."),
        ("s2", "Q", "quoted line one quoted line two"),
        ("s3", "L", "first item; second item; third item"),
        ("s4", "C", "rust, 3 lines"),
        ("s5", "T", "name | value (2 cols x 2 rows)"),
        ("s6", "I", "alt=\"diagram\", src=path"),
    ];
    for (id, tag, payload) in expected {
        assert_eq!(
            summary_of(FIRST_BLOCK_KINDS, id),
            Some((tag.to_owned(), payload.to_owned())),
            "unexpected summary for {id}"
        );
    }
}

#[test]
fn image_sources_are_reduced_to_their_kind() {
    assert_eq!(
        summary_of("# I\n![logo](data:image/png;base64,iVBORw0KGgo=)\n", "s1"),
        Some(("I".to_owned(), "alt=\"logo\", src=data-uri".to_owned()))
    );
    assert_eq!(
        summary_of("# I\n  ![pic](https://example.com/a.png) trailing\n", "s1"),
        Some(("I".to_owned(), "alt=\"pic\", src=url".to_owned()))
    );
}

#[test]
fn paragraph_whitespace_is_normalized() {
    assert_eq!(
        summary_of("# P\n  first   line\n\tsecond  line  \n\nnext paragraph\n", "s1"),
        Some(("P".to_owned(), "first line second line".to_owned()))
    );
}

#[test]
fn list_summary_keeps_three_top_level_items() {
    assert_eq!(
        summary_of("# L\n1. one\n2. two\n   - nested\n3. three\n4. four\n", "s1"),
        Some(("L".to_owned(), "one; two; three".to_owned()))
    );
}

#[test]
fn code_without_closing_fence_or_language() {
    assert_eq!(
        summary_of("# C\n```\na\nb\n", "s1"),
        Some(("C".to_owned(), "text, 2 lines".to_owned()))
    );
}

#[test]
fn pipe_line_without_separator_is_a_paragraph() {
    assert_eq!(
        summary_of("# T\na | b\nnot a separator\n", "s1"),
        Some(("P".to_owned(), "a | b not a separator".to_owned()))
    );
}

#[test]
fn empty_sections_have_no_summary() {
    assert_eq!(summary_of("# Empty\n\n---\n\n# Next\ntext\n", "s1"), None);
    assert_eq!(summary_of("# Only heading", "s1"), None);
}

#[test]
fn section_of_a_longer_document_scans_only_existing_lines() {
    let long = Document::from_bytes("a.md", b"# T\npara\n\nmore\nmore\n").expect("valid text");
    let short = Document::from_bytes("b.md", b"# T\npara\n\n").expect("valid text");
    let index = long.section_index();
    let section = index.by_id("s1").expect("section");
    assert_eq!(section.end_line, 5);
    let block = section.summary_block(&short).expect("block");
    assert_eq!(block.kind, SummaryKind::Paragraph);
    assert_eq!((block.start_line, block.end_line), (2, 2));
    assert_eq!(block.payload(), "para");
}

#[test]
fn data_uri_images_with_the_same_alt_give_the_same_summary() {
    let a = summary_of("# I\n![arch](data:image/png;base64,AAAA)\n", "s1");
    let b = summary_of("# I\n![arch](data:image/gif;base64,R0lGODlhAQABAIAAAP)\n", "s1");
    assert_eq!(a, Some(("I".to_owned(), "alt=\"arch\", src=data-uri".to_owned())));
    assert_eq!(a, b);
    assert_eq!(
        summary_of("# I\n![](docs/x.png)\n", "s1"),
        Some(("I".to_owned(), "alt=\"\", src=path".to_owned()))
    );
}
