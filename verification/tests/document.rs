use mdq::{Document, Heading, HeadingKind};

#[test]
fn document_strips_bom_and_indexes_lf_lines() {
    let doc = Document::from_bytes("fixture.md", b"\xEF\xBB\xBF# Title\nline 2\n")
        .expect("fixture should decode");

    assert_eq!(doc.source(), "# Title\nline 2\n");
    assert_eq!(doc.line_count(), 2);
    assert_eq!(doc.line(1), Some("# Title"));
    assert_eq!(doc.line(2), Some("line 2"));
    assert_eq!(doc.slice_lines(1, 2), Some("# Title\nline 2\n"));
    assert_eq!(doc.line_start_offset(1), Some(0));
    assert_eq!(doc.line_end_offset(1), Some(7));
    assert_eq!(doc.line_start_offset(2), Some(8));
    assert_eq!(doc.line_end_offset(2), Some(14));
}

#[test]
fn document_treats_crlf_as_single_line_break() {
    let doc = Document::from_bytes("fixture.md", b"# Title\r\nline 2\r\nlast line")
        .expect("fixture should decode");

    assert_eq!(doc.line_count(), 3);
    assert_eq!(doc.line(1), Some("# Title"));
    assert_eq!(doc.line(2), Some("line 2"));
    assert_eq!(doc.line(3), Some("last line"));
    assert_eq!(doc.slice_lines(1, 2), Some("# Title\r\nline 2\r\n"));
    assert_eq!(doc.line_start_offset(2), Some(9));
    assert_eq!(doc.line_end_offset(2), Some(15));
}

#[test]
fn document_reports_decode_errors() {
    let err = Document::from_bytes("fixture.md", &[0xff, 0xfe]).expect_err("should fail decode");

    assert_eq!(err.code(), "decode_error");
    assert_eq!(err.message(), "Failed to decode file 'fixture.md' as UTF-8");
}

#[test]
fn document_parses_atx_headings_with_source_positions() {
    let doc = Document::from_bytes(
        "fixture.md",
        b"# Title\nIntro\n### Deep Dive ###\nBody\n####### not a heading\n",
    )
    .expect("fixture should decode");

    assert_eq!(
        doc.headings(),
        vec![
            Heading {
                kind: HeadingKind::Atx,
                level: 1,
                title: "Title".to_owned(),
                start_line: 1,
                end_line: 1,
                start_offset: 0,
                end_offset: 7,
            },
            Heading {
                kind: HeadingKind::Atx,
                level: 3,
                title: "Deep Dive".to_owned(),
                start_line: 3,
                end_line: 3,
                start_offset: 14,
                end_offset: 31,
            },
        ]
    );
}

#[test]
fn document_parses_setext_headings_with_source_positions() {
    let doc = Document::from_bytes(
        "fixture.md",
        b"Title\n=====\n\nSubtitle\n-----\nParagraph\n",
    )
    .expect("fixture should decode");

    assert_eq!(
        doc.headings(),
        vec![
            Heading {
                kind: HeadingKind::Setext,
                level: 1,
                title: "Title".to_owned(),
                start_line: 1,
                end_line: 2,
                start_offset: 0,
                end_offset: 11,
            },
            Heading {
                kind: HeadingKind::Setext,
                level: 2,
                title: "Subtitle".to_owned(),
                start_line: 4,
                end_line: 5,
                start_offset: 13,
                end_offset: 27,
            },
        ]
    );
}

#[test]
fn document_rejects_common_non_heading_setext_candidates() {
    let doc = Document::from_bytes(
        "fixture.md",
        b"> quoted\n-----\n- list item\n-----\n    indented\n-----\n",
    )
    .expect("fixture should decode");

    assert!(doc.headings().is_empty());
}

#[test]
fn lines_rejoin_into_the_whole_text() {
    let text = "# A\r\nbody\n\n## B\nlast";
    let doc = Document::from_bytes("x.md", text.as_bytes()).expect("valid text");
    assert_eq!(doc.line_count(), 5);
    assert_eq!(doc.slice_lines(1, doc.line_count()), Some(text));
    assert_eq!(doc.line(3), Some(""));
    assert_eq!(doc.slice_lines(3, 3), Some("\n"));
    assert_eq!(doc.slice_lines(5, 5), Some("last"));
}

#[test]
fn empty_text_has_no_lines() {
    let doc = Document::from_bytes("x.md", b"").expect("valid text");
    assert_eq!(doc.line_count(), 0);
    assert_eq!(doc.line(1), None);
    assert_eq!(doc.slice_lines(1, 1), None);
    assert!(doc.headings().is_empty());
    let bom_only = Document::from_bytes("x.md", b"\xEF\xBB\xBF").expect("valid text");
    assert_eq!(bom_only.source(), "");
    assert_eq!(bom_only.line_count(), 0);
}

#[test]
fn out_of_range_lines_and_slices_are_none() {
    let doc = Document::from_bytes("x.md", b"a\nb\n").expect("valid text");
    assert_eq!(doc.line(0), None);
    assert_eq!(doc.line(3), None);
    assert_eq!(doc.slice_lines(0, 1), None);
    assert_eq!(doc.slice_lines(2, 1), None);
    assert_eq!(doc.slice_lines(1, 3), None);
    assert_eq!(doc.line_start_offset(0), None);
    assert_eq!(doc.line_end_offset(3), None);
}

#[test]
fn multibyte_lines_keep_byte_offsets() {
    let doc = Document::from_bytes("x.md", "# Überblick\nnaïve\n".as_bytes()).expect("valid text");
    assert_eq!(doc.line(1), Some("# Überblick"));
    assert_eq!(doc.line_end_offset(1), Some(12));
    assert_eq!(doc.line_start_offset(2), Some(13));
    assert_eq!(doc.headings()[0].title, "Überblick");
}

#[test]
fn atx_heading_rules() {
    let doc = Document::from_bytes(
        "x.md",
        b"#NoSpace\n   ## Indented ##\n    # code\n###### Six\n#\n## Hash # inside ##   \n",
    )
    .expect("valid text");
    let titles: Vec<(u8, String)> = doc
        .headings()
        .into_iter()
        .map(|h| (h.level, h.title))
        .collect();
    assert_eq!(
        titles,
        vec![
            (2, "Indented".to_owned()),
            (6, "Six".to_owned()),
            (1, "".to_owned()),
            (2, "Hash # inside".to_owned()),
        ]
    );
}

#[test]
fn setext_heading_takes_two_lines() {
    let doc = Document::from_bytes("x.md", b"Intro text\n---\nbody\n").expect("valid text");
    let hs = doc.headings();
    assert_eq!(hs.len(), 1);
    assert_eq!(hs[0].kind, HeadingKind::Setext);
    assert_eq!(hs[0].level, 2);
    assert_eq!((hs[0].start_line, hs[0].end_line), (1, 2));
    assert_eq!((hs[0].start_offset, hs[0].end_offset), (0, 14));
}
