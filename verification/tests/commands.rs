use mdq::command::{cli_error_format, handle_runtime_error, handle_usage_validation_error};
use mdq::search::collect_matches;
use mdq::{
    execute, Cli, Commands, Document, ErrorFormat, FindArgs, FindFormat, GetArgs, GetFormat,
    TreeArgs, TreeFormat, EXIT_SECTION_NOT_FOUND, EXIT_SUCCESS, EXIT_USAGE_ERROR,
};

const FIRST_BLOCK_KINDS: &str = "# Paragraph\nPlain paragraph summary text.\n\n# Blockquote\n> quoted line one\n> quoted line two\n\n# List\n- first item\n- second item\n  - nested item\n- third item\n\n# Code\n```rust\nfn main() {\n    println!(\"hi\");\n}\n```\n\n# Table\n| name | value |\n| --- | --- |\n| a | 1 |\n| b | 2 |\n\n# Image\n![diagram](images/diagram.png)\n";

const REGULAR_NESTED: &str = "# Intro\nIntro body.\n## Child\nChild body.\n### Grandchild\nGrandchild body.\n";

const FIND_CASES: &str = "Install again\n# Guide\nInstall the tool first.\n## Install\nInstall again\ninstall later\n";

const ZERO_MATCH: &str = "# Nothing\nNo matching text here.\n";

/// Runs a command the way the program does: exit code, stdout, stderr.
fn run(cli: Cli, text: &str) -> (i32, String, String) {
    let document = Document::from_bytes("fixture.md", text.as_bytes()).expect("fixture should decode");
    let format = cli_error_format(&cli);
    let cli = match cli.validated() {
        Ok(cli) => cli,
        Err(err) => {
            let rendered = format!("error: {}\n", err.message());
            let report = handle_usage_validation_error(err, format, &rendered);
            return (report.exit_code, report.stdout, report.stderr);
        }
    };
    match execute(&cli, &document).expect("command should have an answer") {
        Ok(out) => (EXIT_SUCCESS, out, String::new()),
        Err(err) => {
            let report = handle_runtime_error(&err, format);
            (report.exit_code, report.stdout, report.stderr)
        }
    }
}

fn tree(format: TreeFormat, max_depth: Option<u8>, no_summary: bool) -> Cli {
    Cli {
        command: Commands::Tree(TreeArgs {
            file: "fixture.md".to_owned(),
            format,
            max_depth,
            no_summary,
        }),
    }
}

fn get(id: &str, format: GetFormat, max_lines: Option<usize>, with_line_numbers: bool) -> Cli {
    Cli {
        command: Commands::Get(GetArgs {
            file: "fixture.md".to_owned(),
            id: id.to_owned(),
            format,
            max_lines,
            with_line_numbers,
        }),
    }
}

fn find(query: &str, format: FindFormat, regex: bool, case_sensitive: bool, max_matches: usize) -> Cli {
    Cli {
        command: Commands::Find(FindArgs {
            file: "fixture.md".to_owned(),
            query: query.to_owned(),
            format,
            regex,
            case_sensitive,
            max_matches,
        }),
    }
}

#[test]
fn tree_annotated_md_renders_headings_ranges_and_summaries() {
    let (exit, stdout, stderr) = run(tree(TreeFormat::AnnotatedMd, None, false), FIRST_BLOCK_KINDS);

    assert_eq!(exit, EXIT_SUCCESS);
    assert_eq!(stderr, "");
    assert_eq!(
        stdout,
        "# [s1 L1-L3] Paragraph\nP: Plain paragraph summary text.\n\n# [s2 L4-L7] Blockquote\nQ: quoted line one quoted line two\n\n# [s3 L8-L13] List\nL: first item; second item; third item\n\n# [s4 L14-L20] Code\nC: rust, 3 lines\n\n# [s5 L21-L26] Table\nT: name | value (2 cols x 2 rows)\n\n# [s6 L27-L28] Image\nI: alt=\"diagram\", src=path\n"
    );
}

#[test]
fn tree_annotated_md_supports_depth_filter_and_summary_suppression() {
    let (exit, stdout, stderr) = run(tree(TreeFormat::AnnotatedMd, Some(2), true), REGULAR_NESTED);

    assert_eq!(exit, EXIT_SUCCESS);
    assert_eq!(stderr, "");
    assert_eq!(stdout, "# [s1 L1-L6] Intro\n\n## [s1-1 L3-L6] Child\n");
}

#[test]
fn tree_json_lists_sections_with_parents_and_summaries() {
    let (exit, stdout, _) = run(tree(TreeFormat::Json, None, false), REGULAR_NESTED);
    assert_eq!(exit, EXIT_SUCCESS);
    assert_eq!(
        stdout,
        "{\"command\":\"tree\",\"file\":\"fixture.md\",\"format\":\"json\",\"sections\":[{\"id\":\"s1\",\"parent_id\":\"root\",\"level\":1,\"title\":\"Intro\",\"start_line\":1,\"end_line\":6,\"summary\":{\"tag\":\"P\",\"text\":\"Intro body.\"}},{\"id\":\"s1-1\",\"parent_id\":\"s1\",\"level\":2,\"title\":\"Child\",\"start_line\":3,\"end_line\":6,\"summary\":{\"tag\":\"P\",\"text\":\"Child body.\"}},{\"id\":\"s1-1-1\",\"parent_id\":\"s1-1\",\"level\":3,\"title\":\"Grandchild\",\"start_line\":5,\"end_line\":6,\"summary\":{\"tag\":\"P\",\"text\":\"Grandchild body.\"}}]}\n"
    );
}

#[test]
fn tree_json_without_summaries_and_empty_outline() {
    let (_, stdout, _) = run(tree(TreeFormat::Json, Some(1), true), REGULAR_NESTED);
    assert_eq!(
        stdout,
        "{\"command\":\"tree\",\"file\":\"fixture.md\",\"format\":\"json\",\"sections\":[{\"id\":\"s1\",\"parent_id\":\"root\",\"level\":1,\"title\":\"Intro\",\"start_line\":1,\"end_line\":6}]}\n"
    );
    let (_, empty, _) = run(tree(TreeFormat::Json, None, false), "no headings\n");
    assert_eq!(
        empty,
        "{\"command\":\"tree\",\"file\":\"fixture.md\",\"format\":\"json\",\"sections\":[]}\n"
    );
    let (_, md, _) = run(tree(TreeFormat::AnnotatedMd, None, false), "no headings\n");
    assert_eq!(md, "");
}

#[test]
fn find_text_searches_lines_maps_sections_and_limits_matches() {
    let (exit, stdout, stderr) = run(find("install", FindFormat::Text, false, false, 2), FIND_CASES);

    assert_eq!(exit, EXIT_SUCCESS);
    assert_eq!(stderr, "");
    assert_eq!(stdout, "L1 [-] Install again\nL3 [s1] Install the tool first.\n");
}

#[test]
fn find_json_emits_root_matches_and_regex_case_rules() {
    let (exit, stdout, stderr) = run(
        find("^Install again$", FindFormat::Json, true, true, 200),
        FIND_CASES,
    );

    assert_eq!(exit, EXIT_SUCCESS);
    assert_eq!(stderr, "");
    assert_eq!(
        stdout,
        "{\"command\":\"find\",\"file\":\"fixture.md\",\"format\":\"json\",\"query\":\"^Install again$\",\"regex\":true,\"case_sensitive\":true,\"matches\":[{\"line\":1,\"section_id\":\"root\",\"text\":\"Install again\"},{\"line\":5,\"section_id\":\"s1-1\",\"text\":\"Install again\"}]}\n"
    );
}

#[test]
fn find_invalid_regex_is_a_usage_error() {
    let (exit, stdout, stderr) = run(find("(", FindFormat::Text, true, false, 200), ZERO_MATCH);

    assert_eq!(exit, EXIT_USAGE_ERROR);
    assert_eq!(stdout, "");
    assert!(stderr.contains("regex parse error"));
}

#[test]
fn find_modes_of_matching() {
    let (_, all, _) = run(find("install", FindFormat::Text, false, false, 200), FIND_CASES);
    assert_eq!(
        all,
        "L1 [-] Install again\nL3 [s1] Install the tool first.\nL4 [s1-1] ## Install\nL5 [s1-1] Install again\nL6 [s1-1] install later\n"
    );
    let (_, sensitive, _) = run(find("install", FindFormat::Text, false, true, 200), FIND_CASES);
    assert_eq!(sensitive, "L6 [s1-1] install later\n");
    let (_, literal, _) = run(find("(a.b)", FindFormat::Text, false, false, 200), "x (A.B) y\nx (axb) y\n");
    assert_eq!(literal, "L1 [-] x (A.B) y\n");
    let (_, regex, _) = run(find("a.b", FindFormat::Text, true, false, 200), "x (A.B) y\nx (axb) y\n");
    assert_eq!(regex, "L1 [-] x (A.B) y\nL2 [-] x (axb) y\n");
    let (exit, none, _) = run(find("missing", FindFormat::Json, false, false, 200), ZERO_MATCH);
    assert_eq!(exit, EXIT_SUCCESS);
    assert_eq!(
        none,
        "{\"command\":\"find\",\"file\":\"fixture.md\",\"format\":\"json\",\"query\":\"missing\",\"regex\":false,\"case_sensitive\":false,\"matches\":[]}\n"
    );
}

#[test]
fn find_invalid_regex_as_json() {
    let (exit, stdout, stderr) = run(find("(", FindFormat::Json, true, false, 200), ZERO_MATCH);
    assert_eq!(exit, EXIT_USAGE_ERROR);
    assert_eq!(stderr, "");
    assert!(stdout.starts_with("{\"error\":{\"code\":\"usage_error\",\"message\":\"regex parse error"));
}

const GET_FIXTURE: &str = "# Intro\nline 1\n## Child\nchild line\n";

#[test]
fn get_text_emits_exact_section_slice() {
    let (exit, stdout, stderr) = run(get("s1", GetFormat::Text, None, false), GET_FIXTURE);

    assert_eq!(exit, EXIT_SUCCESS);
    assert_eq!(stderr, "");
    assert_eq!(stdout, "# Intro\nline 1\n## Child\nchild line\n");
}

#[test]
fn get_text_supports_truncation_and_line_numbers() {
    let (exit, stdout, stderr) = run(
        get("s1", GetFormat::Text, Some(3), true),
        "# Intro\nline 1\n## Child\nchild line",
    );

    assert_eq!(exit, EXIT_SUCCESS);
    assert_eq!(stderr, "");
    assert_eq!(stdout, "L1: # Intro\nL2: line 1\nL3: ## Child\n");
}

#[test]
fn get_json_reports_section_bounds_and_truncation() {
    let (exit, stdout, stderr) = run(get("s1-1", GetFormat::Json, Some(1), false), GET_FIXTURE);

    assert_eq!(exit, EXIT_SUCCESS);
    assert_eq!(stderr, "");
    assert_eq!(
        stdout,
        "{\"command\":\"get\",\"file\":\"fixture.md\",\"format\":\"json\",\"id\":\"s1-1\",\"start_line\":3,\"end_line\":4,\"truncated\":true,\"content\":\"## Child\\n\"}\n"
    );
}

#[test]
fn get_json_emits_section_not_found_error_shape() {
    let (exit, stdout, stderr) = run(get("s9", GetFormat::Json, None, false), "# Intro\nline 1\n");

    assert_eq!(exit, EXIT_SECTION_NOT_FOUND);
    assert_eq!(stderr, "");
    assert_eq!(
        stdout,
        "{\"error\":{\"code\":\"section_not_found\",\"message\":\"Section id not found: s9\"}}\n"
    );
}

#[test]
fn get_returns_section_not_found_exit_code_for_unknown_id() {
    let (exit, stdout, stderr) = run(get("s9", GetFormat::Text, None, false), "# Title\nBody\n");
    assert_eq!(exit, EXIT_SECTION_NOT_FOUND);
    assert_eq!(stdout, "");
    assert_eq!(stderr, "Section id not found: s9\n");
}

#[test]
fn get_line_numbers_follow_the_file_and_last_line_break() {
    let (_, child, _) = run(get("s1-1", GetFormat::Text, None, true), "# Intro\nline 1\n## Child\nchild line");
    assert_eq!(child, "L3: ## Child\nL4: child line");
    let (_, crlf, _) = run(get("s1", GetFormat::Text, None, true), "# A\r\nb\r\n");
    assert_eq!(crlf, "L1: # A\nL2: b\n");
    let (_, long, _) = run(get("s1", GetFormat::Text, Some(100), false), GET_FIXTURE);
    assert_eq!(long, GET_FIXTURE);
    let (_, json, _) = run(get("s1", GetFormat::Json, Some(100), false), "# A\n\"q\"\n");
    assert_eq!(
        json,
        "{\"command\":\"get\",\"file\":\"fixture.md\",\"format\":\"json\",\"id\":\"s1\",\"start_line\":1,\"end_line\":2,\"truncated\":false,\"content\":\"# A\\n\\\"q\\\"\\n\"}\n"
    );
}

#[test]
fn get_with_huge_line_limit_gives_the_whole_section() {
    let (exit, out, _) = run(
        get("s1", GetFormat::Text, Some(usize::MAX), false),
        "preamble\n# A\nb\n",
    );
    assert_eq!(exit, EXIT_SUCCESS);
    assert_eq!(out, "# A\nb\n");
    let (_, json, _) = run(
        get("s1", GetFormat::Json, Some(usize::MAX), false),
        "preamble\n# A\nb\n",
    );
    assert_eq!(
        json,
        "{\"command\":\"get\",\"file\":\"fixture.md\",\"format\":\"json\",\"id\":\"s1\",\"start_line\":2,\"end_line\":3,\"truncated\":false,\"content\":\"# A\\nb\\n\"}\n"
    );
    let (_, numbered, _) = run(
        get("s1", GetFormat::Text, Some(usize::MAX - 1), true),
        "x\ny\n# A\nb",
    );
    assert_eq!(numbered, "L3: # A\nL4: b");
}

#[test]
fn error_format_follows_the_command_format() {
    assert_eq!(cli_error_format(&tree(TreeFormat::Json, None, false)), ErrorFormat::Json);
    assert_eq!(cli_error_format(&tree(TreeFormat::AnnotatedMd, None, false)), ErrorFormat::Text);
    assert_eq!(cli_error_format(&get("s1", GetFormat::Json, None, false)), ErrorFormat::Json);
    assert_eq!(cli_error_format(&find("x", FindFormat::Text, false, false, 1)), ErrorFormat::Text);
}

#[test]
fn invalid_options_are_usage_errors_before_running() {
    let (exit, stdout, stderr) = run(get("s1", GetFormat::Json, Some(0), false), GET_FIXTURE);
    assert_eq!(exit, EXIT_USAGE_ERROR);
    assert_eq!(stderr, "");
    assert_eq!(
        stdout,
        "{\"error\":{\"code\":\"usage_error\",\"message\":\"--max-lines must be greater than 0\"}}\n"
    );
    let (exit, _, stderr) = run(find("x", FindFormat::Text, false, false, 0), GET_FIXTURE);
    assert_eq!(exit, EXIT_USAGE_ERROR);
    assert_eq!(stderr, "error: --max-matches must be greater than 0\n");
}

#[test]
fn collected_matches_follow_the_flags() {
    let document = Document::from_bytes("fixture.md", FIND_CASES.as_bytes()).expect("valid");
    let flags = vec![true, false, true, false, true, true];
    let all = collect_matches(&document, &flags, 200);
    let lines: Vec<(usize, String)> = all.iter().map(|m| (m.line, m.section_id.clone())).collect();
    assert_eq!(
        lines,
        vec![
            (1, "root".to_owned()),
            (3, "s1".to_owned()),
            (5, "s1-1".to_owned()),
            (6, "s1-1".to_owned()),
        ]
    );
    assert_eq!(all[1].text, "Install the tool first.");
    let two = collect_matches(&document, &flags, 2);
    assert_eq!(two.len(), 2);
    assert_eq!(two[1].line, 3);
    let zero_limit = collect_matches(&document, &flags, 0);
    assert_eq!(zero_limit.len(), 1);
    let none = collect_matches(&document, &vec![false; 6], 5);
    assert!(none.is_empty());
}
