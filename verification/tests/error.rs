use mdq::command::{
    clap_error_message, handle_clap_error, handle_runtime_error, handle_usage_validation_error,
    infer_error_format, io_error, parse_requested_error_format,
};
use mdq::{
    escape_json_string, AppError, ErrorFormat, InputError, UsageError, EXIT_FILE_ERROR,
    EXIT_INTERNAL_ERROR, EXIT_SECTION_NOT_FOUND, EXIT_SUCCESS, EXIT_USAGE_ERROR,
};

#[test]
fn app_error_maps_codes_exit_codes_and_json_shape() {
    let usage = AppError::from(UsageError::new("bad flag"));
    assert_eq!(usage.code(), "usage_error");
    assert_eq!(usage.exit_code(), EXIT_USAGE_ERROR);
    assert_eq!(
        usage.render_json(),
        "{\"error\":{\"code\":\"usage_error\",\"message\":\"bad flag\"}}"
    );

    let file = AppError::from(InputError::Decode {
        path: "broken.md".into(),
    });
    assert_eq!(file.code(), "decode_error");
    assert_eq!(file.exit_code(), EXIT_FILE_ERROR);

    let missing = AppError::SectionNotFound {
        id: "s9".to_owned(),
    };
    assert_eq!(missing.code(), "section_not_found");
    assert_eq!(missing.exit_code(), EXIT_SECTION_NOT_FOUND);
    assert_eq!(missing.message(), "Section id not found: s9");

    let internal = AppError::Internal {
        message: "boom".to_owned(),
    };
    assert_eq!(internal.code(), "internal_error");
    assert_eq!(internal.exit_code(), EXIT_INTERNAL_ERROR);
}

#[test]
fn file_read_error_message_and_code() {
    let err = InputError::FileRead {
        path: "missing.md".to_owned(),
        reason: "No such file or directory (os error 2)".to_owned(),
    };
    assert_eq!(err.code(), "file_read_error");
    assert_eq!(
        err.message(),
        "Failed to read file 'missing.md': No such file or directory (os error 2)"
    );
    let app = AppError::from(err);
    assert_eq!(app.code(), "file_read_error");
    assert_eq!(app.exit_code(), EXIT_FILE_ERROR);
}

#[test]
fn json_strings_are_escaped() {
    assert_eq!(escape_json_string("plain"), "plain");
    assert_eq!(escape_json_string("a\"b\\c"), "a\\\"b\\\\c");
    assert_eq!(escape_json_string("l1\nl2\r\tend"), "l1\\nl2\\r\\tend");
    assert_eq!(escape_json_string("\u{1}x\u{1f}"), "\\u0001x\\u001f");
    assert_eq!(escape_json_string("ümlaut ✓"), "ümlaut ✓");
    let err = AppError::Internal {
        message: "say \"hi\"\n".to_owned(),
    };
    assert_eq!(
        err.render_json(),
        "{\"error\":{\"code\":\"internal_error\",\"message\":\"say \\\"hi\\\"\\n\"}}"
    );
}

#[test]
fn runtime_errors_go_to_stderr_or_stdout_by_format() {
    let err = AppError::SectionNotFound {
        id: "s9".to_owned(),
    };
    let text = handle_runtime_error(&err, ErrorFormat::Text);
    assert_eq!(text.stdout, "");
    assert_eq!(text.stderr, "Section id not found: s9\n");
    assert_eq!(text.exit_code, EXIT_SECTION_NOT_FOUND);

    let json = handle_runtime_error(&err, ErrorFormat::Json);
    assert_eq!(json.stderr, "");
    assert_eq!(
        json.stdout,
        "{\"error\":{\"code\":\"section_not_found\",\"message\":\"Section id not found: s9\"}}\n"
    );
    assert_eq!(json.exit_code, EXIT_SECTION_NOT_FOUND);
}

#[test]
fn usage_validation_errors_by_format() {
    let json = handle_usage_validation_error(
        UsageError::new("--max-depth must be greater than 0"),
        ErrorFormat::Json,
        "ignored",
    );
    assert_eq!(json.exit_code, EXIT_USAGE_ERROR);
    assert_eq!(
        json.stdout,
        "{\"error\":{\"code\":\"usage_error\",\"message\":\"--max-depth must be greater than 0\"}}\n"
    );
    let text = handle_usage_validation_error(
        UsageError::new("--max-depth must be greater than 0"),
        ErrorFormat::Text,
        "error: --max-depth must be greater than 0\n",
    );
    assert_eq!(text.exit_code, EXIT_USAGE_ERROR);
    assert_eq!(text.stdout, "");
    assert_eq!(text.stderr, "error: --max-depth must be greater than 0\n");
}

#[test]
fn parser_error_messages_take_the_first_paragraph() {
    assert_eq!(
        clap_error_message(
            "error: the following required arguments were not provided:\n  --id <ID>\n\nUsage: mdq get --id <ID> <FILE>\n\nFor more information, try '--help'.\n"
        ),
        "the following required arguments were not provided:\n  --id <ID>"
    );
    assert_eq!(clap_error_message("  plain message  "), "plain message");
    assert_eq!(clap_error_message(""), "");
}

#[test]
fn parser_errors_are_reported_by_kind_and_format() {
    let help = handle_clap_error(true, "Usage: mdq", "Usage: mdq\n", ErrorFormat::Json);
    assert_eq!(help.exit_code, EXIT_SUCCESS);
    assert_eq!(help.stdout, "Usage: mdq\n");
    assert_eq!(help.stderr, "");

    let json = handle_clap_error(
        false,
        "error: unexpected argument '--bogus' found\n\nUsage: mdq tree <FILE>\n",
        "rendered",
        ErrorFormat::Json,
    );
    assert_eq!(json.exit_code, EXIT_USAGE_ERROR);
    assert_eq!(
        json.stdout,
        "{\"error\":{\"code\":\"usage_error\",\"message\":\"unexpected argument '--bogus' found\"}}\n"
    );

    let text = handle_clap_error(false, "error: x", "error: x\n", ErrorFormat::Text);
    assert_eq!(text.exit_code, EXIT_USAGE_ERROR);
    assert_eq!(text.stderr, "error: x\n");
    assert_eq!(text.stdout, "");
}

fn args(list: &[&str]) -> Vec<String> {
    list.iter().map(|s| s.to_string()).collect()
}

#[test]
fn error_format_is_inferred_from_raw_arguments() {
    assert_eq!(
        infer_error_format(&args(&["mdq", "tree", "a.md", "--format", "json"])),
        ErrorFormat::Json
    );
    assert_eq!(
        infer_error_format(&args(&["mdq", "get", "a.md", "--format=json", "--id"])),
        ErrorFormat::Json
    );
    assert_eq!(
        infer_error_format(&args(&["mdq", "find", "a.md", "x", "--format"])),
        ErrorFormat::Text
    );
    assert_eq!(
        infer_error_format(&args(&["mdq", "--format", "json", "tree"])),
        ErrorFormat::Text
    );
    assert_eq!(
        infer_error_format(&args(&["mdq", "bogus", "--format", "json"])),
        ErrorFormat::Text
    );
    assert_eq!(
        infer_error_format(&args(&["mdq", "tree", "--format", "text", "--format", "json"])),
        ErrorFormat::Text
    );
    assert_eq!(infer_error_format(&args(&[])), ErrorFormat::Text);
    assert_eq!(parse_requested_error_format("json"), ErrorFormat::Json);
    assert_eq!(parse_requested_error_format("JSON"), ErrorFormat::Text);
}

#[test]
fn write_failures_are_internal_errors() {
    let err = io_error("Broken pipe (os error 32)");
    assert_eq!(err.code(), "internal_error");
    assert_eq!(err.exit_code(), EXIT_INTERNAL_ERROR);
    assert_eq!(err.message(), "Failed to write output: Broken pipe (os error 32)");
}
