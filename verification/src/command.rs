//! Running a parsed command on a document, and how its errors are reported.
use vstd::prelude::*;

use crate::cli::{Cli, Commands, FindArgs, FindFormat, GetArgs, GetFormat, TreeArgs, TreeFormat};
use crate::document::Document;
use crate::error::{error_json, AppError, ErrorFormat, UsageError, EXIT_SUCCESS, EXIT_USAGE_ERROR};
use crate::render::{
    content_lines, extracted_end, get_content, get_json_spec, get_text_spec,
    render_find_json, render_find_text, render_get_json, render_get_text, render_tree_annotated_md,
    render_tree_json, find_json_spec, find_text_spec, tree_json_spec, tree_md_spec,
};
use crate::search::{find_matches, literal_fails, regex_build_error, spec_find};
use crate::section::{find_by_id, law_section_ranges, spec_sections, SectionView};
use crate::text::{
    chars_of, find_in_range, find_sub, push_str, range_starts_with, starts_with, str_eq,
    string_of_range, trim, trim_ws_range,
};
use vstd::utf8::decode_utf8;

verus! {

// ---------------------------------------------------------------------
// Command output
// ---------------------------------------------------------------------
/// What `tree` prints.
pub open spec fn tree_output(doc: &Document, a: TreeArgs) -> Seq<char> {
    match a.format {
        TreeFormat::AnnotatedMd => tree_md_spec(doc, a),
        TreeFormat::Json => tree_json_spec(doc, a),
    }
}

/// What `get` prints for the section `s` that its id names.
pub open spec fn get_output(doc: &Document, a: GetArgs, s: SectionView) -> Seq<char> {
    let x = extracted_end(s.start_line, s.end_line, a.max_lines);
    let text = decode_utf8(doc.lines_bytes(s.start_line, x));
    match a.format {
        GetFormat::Text => get_text_spec(doc, s.start_line, text, a.with_line_numbers),
        GetFormat::Json => get_json_spec(a.file@, a.id@, s.start_line, s.end_line, x < s.end_line, text),
    }
}

/// What `find` prints when its query gives a matcher.
pub open spec fn find_output(doc: &Document, a: FindArgs) -> Seq<char> {
    match a.format {
        FindFormat::Text => find_text_spec(spec_find(doc, a)),
        FindFormat::Json => find_json_spec(a, spec_find(doc, a)),
    }
}

/// The error of building the regex of a `--regex` query, if any.
pub open spec fn query_error(a: FindArgs) -> Option<Seq<char>> {
    if a.regex {
        regex_build_error(a.query@, !a.case_sensitive)
    } else {
        None
    }
}

/// Runs a command on the document it names and returns what it prints on
/// success, or its error. `None` stands for the one case that has no
/// answer: a literal query whose escaped form the regex crate rejects.
pub fn execute(cli: &Cli, document: &Document) -> (r: Option<Result<String, AppError>>)
    requires
        document.wf(),
    ensures
        match cli.command {
            Commands::Tree(a) => r matches Some(Ok(out)) && out@ == tree_output(document, a),
            Commands::Get(a) => match find_by_id(spec_sections(document), a.id@, 0) {
                None => r matches Some(Err(e)) && (e matches AppError::SectionNotFound { id }
                    && id@ == a.id@),
                Some(i) => r matches Some(Ok(out)) && out@ == get_output(
                    document,
                    a,
                    spec_sections(document)[i],
                ),
            },
            Commands::Find(a) => if literal_fails(a.query@, a.regex, a.case_sensitive) {
                r is None
            } else {
                match query_error(a) {
                    Some(m) => r matches Some(Err(e)) && (e matches AppError::Usage(u)
                        && u.message_spec() == m),
                    None => r matches Some(Ok(out)) && out@ == find_output(document, a),
                }
            },
        },
{
    match &cli.command {
        Commands::Tree(args) => {
            let out = match args.format {
                TreeFormat::AnnotatedMd => render_tree_annotated_md(document, args),
                TreeFormat::Json => render_tree_json(document, args),
            };
            Some(Ok(out))
        },
        Commands::Get(args) => {
            let sections = document.section_index();
            let section = match sections.by_id(args.id.as_str()) {
                Some(s) => s,
                None => {
                    return Some(Err(AppError::SectionNotFound { id: args.id.clone() }));
                },
            };
            let ghost s = section@;
            proof {
                law_section_ranges(document);
                let i = find_by_id(spec_sections(document), args.id@, 0)->0;
                crate::section::lemma_find_by_id(spec_sections(document), args.id@, 0);
                assert(spec_sections(document)[i] == s);
            }
            let start = section.start_line;
            let end = section.end_line;
            let content = get_content(document, start, end, args.max_lines).unwrap();
            let ghost x = extracted_end(start as int, end as int, args.max_lines);
            let out = match args.format {
                GetFormat::Text => {
                    proof {
                        document.lemma_lines_count(start as int, x);
                    }
                    render_get_text(document, &content, args.with_line_numbers)
                },
                GetFormat::Json => render_get_json(args, start, end, &content),
            };
            Some(Ok(out))
        },
        Commands::Find(args) => {
            let matches = match find_matches(document, args) {
                None => {
                    return None;
                },
                Some(Err(e)) => {
                    return Some(Err(e));
                },
                Some(Ok(m)) => m,
            };
            let out = match args.format {
                FindFormat::Text => render_find_text(&matches),
                FindFormat::Json => render_find_json(args, &matches),
            };
            Some(Ok(out))
        },
    }
}

// ---------------------------------------------------------------------
// Error reporting
// ---------------------------------------------------------------------
/// The format errors are reported in: that of the command's own output.
pub open spec fn spec_cli_error_format(cli: Cli) -> ErrorFormat {
    match cli.command {
        Commands::Tree(a) => if a.format == TreeFormat::Json {
            ErrorFormat::Json
        } else {
            ErrorFormat::Text
        },
        Commands::Get(a) => if a.format == GetFormat::Json {
            ErrorFormat::Json
        } else {
            ErrorFormat::Text
        },
        Commands::Find(a) => if a.format == FindFormat::Json {
            ErrorFormat::Json
        } else {
            ErrorFormat::Text
        },
    }
}

/// The error format of a parsed command line.
pub fn cli_error_format(cli: &Cli) -> (r: ErrorFormat)
    ensures
        r == spec_cli_error_format(*cli),
{
    match &cli.command {
        Commands::Tree(args) => match args.format {
            TreeFormat::AnnotatedMd => ErrorFormat::Text,
            TreeFormat::Json => ErrorFormat::Json,
        },
        Commands::Get(args) => match args.format {
            GetFormat::Text => ErrorFormat::Text,
            GetFormat::Json => ErrorFormat::Json,
        },
        Commands::Find(args) => match args.format {
            FindFormat::Text => ErrorFormat::Text,
            FindFormat::Json => ErrorFormat::Json,
        },
    }
}

/// `json` asks for JSON errors; any other value for text.
pub open spec fn requested_format(value: Seq<char>) -> ErrorFormat {
    if value == "json"@ {
        ErrorFormat::Json
    } else {
        ErrorFormat::Text
    }
}

pub fn parse_requested_error_format(value: &str) -> (r: ErrorFormat)
    ensures
        r == requested_format(value@),
{
    if str_eq(value, "json") {
        ErrorFormat::Json
    } else {
        ErrorFormat::Text
    }
}

pub open spec fn is_command_word(a: Seq<char>) -> bool {
    a == "tree"@ || a == "get"@ || a == "find"@
}

/// Index of the first command word at or after `i`.
pub open spec fn command_index(args: Seq<Seq<char>>, i: int) -> Option<int>
    decreases args.len() - i,
{
    if i < 0 || i >= args.len() {
        None
    } else if is_command_word(args[i]) {
        Some(i)
    } else {
        command_index(args, i + 1)
    }
}

/// The format asked for by the first `--format=<v>` or `--format <v>` at or
/// after `i`; text when there is none or the value is missing.
pub open spec fn format_after(args: Seq<Seq<char>>, i: int) -> ErrorFormat
    decreases args.len() - i,
{
    if i < 0 || i >= args.len() {
        ErrorFormat::Text
    } else if starts_with(args[i], "--format="@) {
        requested_format(args[i].skip("--format="@.len() as int))
    } else if args[i] == "--format"@ {
        if i + 1 < args.len() {
            requested_format(args[i + 1])
        } else {
            ErrorFormat::Text
        }
    } else {
        format_after(args, i + 1)
    }
}

/// The error format of a command line that did not parse or validate: what
/// its `--format` after the command word asks for, else text.
pub open spec fn spec_infer_error_format(args: Seq<Seq<char>>) -> ErrorFormat {
    match command_index(args, 1) {
        Some(c) => format_after(args, c + 1),
        None => ErrorFormat::Text,
    }
}

/// Guesses the error format from the raw arguments (the program name first).
pub fn infer_error_format(args: &Vec<String>) -> (r: ErrorFormat)
    ensures
        r == spec_infer_error_format(crate::text::string_views(args@)),
{
    let ghost v = crate::text::string_views(args@);
    let mut i: usize = 1;
    let mut found = false;
    while i < args.len()
        invariant_except_break
            command_index(v, 1) == command_index(v, i as int),
            !found,
        invariant
            v == crate::text::string_views(args@),
            1 <= i,
        ensures
            found ==> i < args.len() && command_index(v, 1) == Some(i as int),
            !found ==> command_index(v, 1) is None,
        decreases args.len() - i,
    {
        let a = args[i].as_str();
        if str_eq(a, "tree") || str_eq(a, "get") || str_eq(a, "find") {
            found = true;
            break;
        }
        i += 1;
    }
    if !found {
        return ErrorFormat::Text;
    }
    let prefix = chars_of("--format=");
    let mut j: usize = i + 1;
    while j < args.len()
        invariant
            v == crate::text::string_views(args@),
            prefix@ == "--format="@,
            command_index(v, 1) matches Some(c) && format_after(v, c + 1) == format_after(
                v,
                j as int,
            ),
            i < j,
        decreases args.len() - j,
    {
        let a = args[j].as_str();
        let cs = chars_of(a);
        proof {
            assert(cs@.subrange(0, cs@.len() as int) =~= cs@);
        }
        if range_starts_with(&cs, 0, cs.len(), &prefix) {
            let value = string_of_range(&cs, prefix.len(), cs.len());
            proof {
                assert(value@ =~= v[j as int].skip("--format="@.len() as int));
            }
            return parse_requested_error_format(value.as_str());
        }
        if str_eq(a, "--format") {
            if j + 1 < args.len() {
                return parse_requested_error_format(args[j + 1].as_str());
            }
            return ErrorFormat::Text;
        }
        j += 1;
    }
    ErrorFormat::Text
}

/// What the process prints on each stream, and its exit code.
pub struct Report {
    pub stdout: String,
    pub stderr: String,
    pub exit_code: i32,
}

/// Reports a runtime error: its message and a line break on stderr, or its
/// JSON object and a line break on stdout; the exit code is the error's.
pub fn handle_runtime_error(err: &AppError, format: ErrorFormat) -> (r: Report)
    ensures
        r.exit_code == err.exit_code_spec(),
        format == ErrorFormat::Text ==> r.stdout@ == Seq::<char>::empty() && r.stderr@
            == err.message_spec() + "\n"@,
        format == ErrorFormat::Json ==> r.stderr@ == Seq::<char>::empty() && r.stdout@
            == err.json_spec() + "\n"@,
{
    let mut stdout = String::new();
    let mut stderr = String::new();
    match format {
        ErrorFormat::Text => {
            let message = err.message();
            push_str(&mut stderr, message.as_str());
            push_str(&mut stderr, "\n");
        },
        ErrorFormat::Json => {
            let json = err.render_json();
            push_str(&mut stdout, json.as_str());
            push_str(&mut stdout, "\n");
        },
    }
    Report { stdout, stderr, exit_code: err.exit_code() }
}

/// Reports an option-validation error: as JSON when asked for, else the
/// usage text that the argument parser renders for it, with the usage exit code.
pub fn handle_usage_validation_error(err: UsageError, format: ErrorFormat, rendered: &str) -> (r: Report)
    ensures
        format == ErrorFormat::Json ==> r.exit_code == EXIT_USAGE_ERROR && r.stderr@
            == Seq::<char>::empty() && r.stdout@ == AppError::Usage(err).json_spec() + "\n"@,
        format == ErrorFormat::Text ==> r.exit_code == EXIT_USAGE_ERROR && r.stdout@
            == Seq::<char>::empty() && r.stderr@ == rendered@,
{
    if format == ErrorFormat::Json {
        return handle_runtime_error(&AppError::Usage(err), format);
    }
    let mut stderr = String::new();
    push_str(&mut stderr, rendered);
    Report { stdout: String::new(), stderr, exit_code: EXIT_USAGE_ERROR }
}

/// The message of an argument-parser error: the first paragraph of its text,
/// trimmed, without a leading `error: `.
pub open spec fn clap_message_spec(text: Seq<char>) -> Seq<char> {
    let first = match find_sub(text, "\n\n"@) {
        Some(i) => text.take(i),
        None => text,
    };
    let t = trim(first);
    if starts_with(t, "error: "@) {
        t.skip("error: "@.len() as int)
    } else {
        t
    }
}

pub fn clap_error_message(text: &str) -> (r: String)
    ensures
        r@ == clap_message_spec(text@),
{
    let cs = chars_of(text);
    let sep = chars_of("\n\n");
    proof {
        assert(cs@.subrange(0, cs@.len() as int) =~= cs@);
    }
    let end = match find_in_range(&cs, 0, cs.len(), &sep) {
        Some(i) => i,
        None => cs.len(),
    };
    proof {
        let first = match find_sub(text@, "\n\n"@) {
            Some(i) => text@.take(i),
            None => text@,
        };
        assert(cs@.subrange(0, end as int) =~= first);
    }
    let (a, b) = trim_ws_range(&cs, 0, end);
    let prefix = chars_of("error: ");
    if range_starts_with(&cs, a, b, &prefix) {
        return string_of_range(&cs, a + prefix.len(), b);
    }
    string_of_range(&cs, a, b)
}

/// Reports an argument-parser error. Help and version output go to stdout
/// with success; otherwise the error is a usage error, as JSON when asked
/// for, else the parser's rendered text on stderr.
pub fn handle_clap_error(display_only: bool, text: &str, rendered: &str, format: ErrorFormat) -> (r: Report)
    ensures
        display_only ==> r.exit_code == EXIT_SUCCESS && r.stdout@ == rendered@ && r.stderr@
            == Seq::<char>::empty(),
        !display_only && format == ErrorFormat::Json ==> r.exit_code == EXIT_USAGE_ERROR
            && r.stderr@ == Seq::<char>::empty() && r.stdout@ == error_json(
            "usage_error"@,
            clap_message_spec(text@),
        ) + "\n"@,
        !display_only && format == ErrorFormat::Text ==> r.exit_code == EXIT_USAGE_ERROR
            && r.stdout@ == Seq::<char>::empty() && r.stderr@ == rendered@,
{
    if display_only {
        let mut stdout = String::new();
        push_str(&mut stdout, rendered);
        return Report { stdout, stderr: String::new(), exit_code: EXIT_SUCCESS };
    }
    if format == ErrorFormat::Json {
        let message = clap_error_message(text);
        let err = AppError::Usage(UsageError::new(message.as_str()));
        return handle_runtime_error(&err, format);
    }
    let mut stderr = String::new();
    push_str(&mut stderr, rendered);
    Report { stdout: String::new(), stderr, exit_code: EXIT_USAGE_ERROR }
}

/// The error for a failed write of the output.
pub fn io_error(reason: &str) -> (r: AppError)
    ensures
        r matches AppError::Internal { message } && message@ == "Failed to write output: "@
            + reason@,
{
    let mut message = String::new();
    push_str(&mut message, "Failed to write output: ");
    push_str(&mut message, reason);
    AppError::Internal { message }
}

} // verus!
