use mdq::{Document, ROOT_SECTION_ID};

const IRREGULAR_LEVELS: &str = "## Start With H2\nBody\n#### Skip To H4\nBody\n# Late H1\nIntro\n## Child A\n### Grandchild\n## Child B\n";

const SETEXT_PREAMBLE_EMPTY: &str = "preamble line one\n\nTitle\n=====\n\nIntro paragraph.\n\n\nEmpty Section\n---\n\nParent Only\n===\n\n## Child Section\nChild body.\n";

#[test]
fn section_index_builds_stable_ids_and_parent_relations_for_irregular_headings() {
    let bytes = IRREGULAR_LEVELS.as_bytes().to_vec();
    let doc = Document::from_bytes("fixture.md", &bytes).expect("fixture should decode");

    let index = doc.section_index();
    let sections = index.sections();

    assert_eq!(sections.len(), 6);
    assert_eq!(sections[0].id, "s1");
    assert_eq!(sections[0].parent_id, ROOT_SECTION_ID);
    assert_eq!(sections[0].level, 2);
    assert_eq!(sections[0].children, vec![1]);

    assert_eq!(sections[1].id, "s1-1");
    assert_eq!(sections[1].parent_id, "s1");
    assert_eq!(sections[1].level, 4);

    assert_eq!(sections[2].id, "s2");
    assert_eq!(sections[2].parent_id, ROOT_SECTION_ID);
    assert_eq!(sections[2].level, 1);
    assert_eq!(sections[2].children, vec![3, 5]);

    assert_eq!(sections[3].id, "s2-1");
    assert_eq!(sections[3].parent_id, "s2");
    assert_eq!(sections[3].children, vec![4]);

    assert_eq!(sections[4].id, "s2-1-1");
    assert_eq!(sections[4].parent_id, "s2-1");
    assert_eq!(sections[5].id, "s2-2");
    assert_eq!(sections[5].parent_id, "s2");
}

#[test]
fn section_index_keeps_preamble_and_empty_setext_sections_in_fixture_corpus() {
    let bytes = SETEXT_PREAMBLE_EMPTY.as_bytes().to_vec();
    let doc = Document::from_bytes("fixture.md", &bytes).expect("fixture should decode");

    let index = doc.section_index();

    assert_eq!(index.sections().len(), 4);
    assert_eq!(index.section_for_line(1), None);
    assert_eq!(
        index.by_id("s1").map(|section| section.title.as_str()),
        Some("Title")
    );
    assert_eq!(
        index.by_id("s2").map(|section| section.title.as_str()),
        Some("Parent Only")
    );
    assert_eq!(
        index.by_id("s1-1").map(|section| section.title.as_str()),
        Some("Empty Section")
    );
    assert_eq!(
        index.by_id("s1-1").map(|section| section.start_line),
        Some(9)
    );
    assert_eq!(
        index.by_id("s1-1").map(|section| section.end_line),
        Some(11)
    );
    assert_eq!(
        index.by_id("s2-1").map(|section| section.title.as_str()),
        Some("Child Section")
    );
    assert_eq!(
        index
            .by_id("s2-1")
            .map(|section| section.parent_id.as_str()),
        Some("s2")
    );
}

#[test]
fn section_index_computes_section_ranges_and_preamble_mapping() {
    let doc = Document::from_bytes(
        "fixture.md",
        b"Preamble\n# Title\nIntro\n## Child\nChild body\n### Deep\nDeep body\n## Last\nTail\n",
    )
    .expect("fixture should decode");

    let index = doc.section_index();

    assert_eq!(index.by_id("s1").map(|section| section.start_line), Some(2));
    assert_eq!(index.by_id("s1").map(|section| section.end_line), Some(9));
    assert_eq!(
        index.by_id("s1-1").map(|section| section.start_line),
        Some(4)
    );
    assert_eq!(index.by_id("s1-1").map(|section| section.end_line), Some(7));
    assert_eq!(
        index.by_id("s1-1-1").map(|section| section.end_line),
        Some(7)
    );
    assert_eq!(
        index.by_id("s1-2").map(|section| section.start_line),
        Some(8)
    );
    assert_eq!(index.by_id("s1-2").map(|section| section.end_line), Some(9));

    assert_eq!(index.section_for_line(1), None);
    assert_eq!(
        index.section_for_line(2).map(|section| section.id.as_str()),
        Some("s1")
    );
    assert_eq!(
        index.section_for_line(5).map(|section| section.id.as_str()),
        Some("s1-1")
    );
    assert_eq!(
        index.section_for_line(7).map(|section| section.id.as_str()),
        Some("s1-1-1")
    );
    assert_eq!(
        index.section_for_line(9).map(|section| section.id.as_str()),
        Some("s1-2")
    );
}

#[test]
fn empty_documents_produce_an_empty_section_index() {
    let doc = Document::from_bytes("fixture.md", b"preamble only\n\nstill no headings\n")
        .expect("fixture should decode");

    let index = doc.section_index();

    assert!(index.is_empty());
    assert!(index.by_id("s1").is_none());
    assert!(index.section_for_line(1).is_none());
}

#[test]
fn section_ends_before_next_heading_of_same_or_lower_level() {
    let doc = Document::from_bytes(
        "x.md",
        b"# A\n## B\ntext\n### C\n## D\n# E\nend\n",
    )
    .expect("valid text");
    let index = doc.section_index();
    let ranges: Vec<(String, usize, usize)> = index
        .sections()
        .iter()
        .map(|s| (s.id.clone(), s.start_line, s.end_line))
        .collect();
    assert_eq!(
        ranges,
        vec![
            ("s1".to_owned(), 1, 5),
            ("s1-1".to_owned(), 2, 4),
            ("s1-1-1".to_owned(), 4, 4),
            ("s1-2".to_owned(), 5, 5),
            ("s2".to_owned(), 6, 7),
        ]
    );
}

#[test]
fn ids_do_not_depend_on_titles_or_body_lines() {
    let a = Document::from_bytes("a.md", b"# One\nx\n## Two\n# Three\n").expect("valid text");
    let b = Document::from_bytes("b.md", b"intro\n\n# Other\n\n\nmore\n## Name\nbody\n# Last\n")
        .expect("valid text");
    let ia: Vec<String> = a.section_index().sections().iter().map(|s| s.id.clone()).collect();
    let ib: Vec<String> = b.section_index().sections().iter().map(|s| s.id.clone()).collect();
    assert_eq!(ia, vec!["s1", "s1-1", "s2"]);
    assert_eq!(ia, ib);
}

#[test]
fn many_siblings_get_multi_digit_ids() {
    let mut text = String::from("# Top\n");
    for k in 0..12 {
        text.push_str(&format!("## Child {k}\n"));
    }
    let doc = Document::from_bytes("x.md", text.as_bytes()).expect("valid text");
    let index = doc.section_index();
    assert_eq!(index.sections().len(), 13);
    assert_eq!(index.sections()[12].id, "s1-12");
    assert_eq!(index.sections()[0].children.len(), 12);
    assert_eq!(index.by_id("s1-10").map(|s| s.title.as_str()), Some("Child 9"));
}

#[test]
fn heading_of_a_section_is_kept() {
    let doc = Document::from_bytes("x.md", b"Title\n===\nbody\n").expect("valid text");
    let index = doc.section_index();
    let s = index.by_id("s1").expect("section");
    assert_eq!(s.heading.start_line, 1);
    assert_eq!(s.heading.end_line, 2);
    assert_eq!(s.end_line, 3);
    assert_eq!(index.section_for_line(3).map(|x| x.id.as_str()), Some("s1"));
    assert!(index.section_for_line(4).is_none());
}

#[test]
fn ids_are_unique_and_follow_sibling_positions() {
    let doc = Document::from_bytes(
        "x.md",
        b"## a\n# b\n### c\n## d\n#### e\n## f\n# g\n## h\n",
    )
    .expect("valid text");
    let index = doc.section_index();
    let ids: Vec<&str> = index.sections().iter().map(|s| s.id.as_str()).collect();
    assert_eq!(ids, vec!["s1", "s2", "s2-1", "s2-2", "s2-2-1", "s2-3", "s3", "s3-1"]);
    for (i, a) in ids.iter().enumerate() {
        for b in ids.iter().skip(i + 1) {
            assert_ne!(a, b);
        }
    }
    let parents: Vec<&str> = index.sections().iter().map(|s| s.parent_id.as_str()).collect();
    assert_eq!(parents, vec!["root", "root", "s2", "s2", "s2-2", "s2", "root", "s3"]);
    assert_eq!(index.sections()[1].children, vec![2, 3, 5]);
}
