use mdq::{Cli, Commands, FindArgs, FindFormat, GetArgs, GetFormat, TreeArgs, TreeFormat};

fn get_cli(format: GetFormat, max_lines: Option<usize>, with_line_numbers: bool) -> Cli {
    Cli {
        command: Commands::Get(GetArgs {
            file: "README.md".to_owned(),
            id: "s1".to_owned(),
            format,
            max_lines,
            with_line_numbers,
        }),
    }
}

#[test]
fn get_command_rejects_line_numbers_for_json() {
    let cli = get_cli(GetFormat::Json, None, true);

    let err = cli.validated().expect_err("validation should fail");
    assert_eq!(
        err.message(),
        "--with-line-numbers can only be used with --format text"
    );
}

#[test]
fn numeric_limits_reject_zero() {
    let cli = Cli {
        command: Commands::Tree(TreeArgs {
            file: "README.md".to_owned(),
            format: TreeFormat::AnnotatedMd,
            max_depth: Some(0),
            no_summary: false,
        }),
    };
    let err = cli.validated().expect_err("validation should fail");
    assert_eq!(err.message(), "--max-depth must be greater than 0");

    let cli = get_cli(GetFormat::Text, Some(0), false);
    let err = cli.validated().expect_err("validation should fail");
    assert_eq!(err.message(), "--max-lines must be greater than 0");

    let cli = Cli {
        command: Commands::Find(FindArgs {
            file: "README.md".to_owned(),
            query: "install".to_owned(),
            format: FindFormat::Text,
            regex: false,
            case_sensitive: false,
            max_matches: 0,
        }),
    };
    let err = cli.validated().expect_err("validation should fail");
    assert_eq!(err.message(), "--max-matches must be greater than 0");
}

#[test]
fn zero_max_lines_is_reported_before_the_line_number_rule() {
    let err = get_cli(GetFormat::Json, Some(0), true)
        .validated()
        .expect_err("validation should fail");
    assert_eq!(err.message(), "--max-lines must be greater than 0");
}

#[test]
fn consistent_options_validate_unchanged() {
    let cli = get_cli(GetFormat::Text, Some(10), true)
        .validated()
        .expect("options are consistent");
    match cli.command {
        Commands::Get(args) => {
            assert_eq!(args.id, "s1");
            assert_eq!(args.max_lines, Some(10));
            assert!(args.with_line_numbers);
        }
        _ => panic!("expected get command"),
    }
    let tree = Cli {
        command: Commands::Tree(TreeArgs {
            file: "a.md".to_owned(),
            format: TreeFormat::Json,
            max_depth: Some(1),
            no_summary: true,
        }),
    };
    assert!(tree.validated().is_ok());
}
