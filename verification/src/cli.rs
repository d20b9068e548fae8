//! The commands and their options, and the checks on option values.
use vstd::prelude::*;

use crate::error::UsageError;

verus! {

#[derive(Clone, Copy, Debug, PartialEq, Eq, Structural)]
pub enum TreeFormat {
    AnnotatedMd,
    Json,
}

#[derive(Clone, Copy, Debug, PartialEq, Eq, Structural)]
pub enum GetFormat {
    Text,
    Json,
}

#[derive(Clone, Copy, Debug, PartialEq, Eq, Structural)]
pub enum FindFormat {
    Text,
    Json,
}

/// `tree <file> [--format annotated-md|json] [--max-depth N] [--no-summary]`
#[derive(Debug)]
pub struct TreeArgs {
    /// The file path as given on the command line.
    pub file: String,
    pub format: TreeFormat,
    pub max_depth: Option<u8>,
    pub no_summary: bool,
}

/// `get <file> --id <section_id> [--format text|json] [--max-lines N] [--with-line-numbers]`
#[derive(Debug)]
pub struct GetArgs {
    pub file: String,
    pub id: String,
    pub format: GetFormat,
    pub max_lines: Option<usize>,
    pub with_line_numbers: bool,
}

/// `find <file> <query> [--format text|json] [--regex] [--case-sensitive] [--max-matches N]`
#[derive(Debug)]
pub struct FindArgs {
    pub file: String,
    pub query: String,
    pub format: FindFormat,
    pub regex: bool,
    pub case_sensitive: bool,
    pub max_matches: usize,
}

#[derive(Debug)]
pub enum Commands {
    Tree(TreeArgs),
    Get(GetArgs),
    Find(FindArgs),
}

#[derive(Debug)]
pub struct Cli {
    pub command: Commands,
}

/// The usage error of a `tree` invocation, if any.
pub open spec fn tree_args_error(a: TreeArgs) -> Option<Seq<char>> {
    if a.max_depth == Some(0u8) {
        Some("--max-depth must be greater than 0"@)
    } else {
        None
    }
}

/// The usage error of a `get` invocation, if any.
pub open spec fn get_args_error(a: GetArgs) -> Option<Seq<char>> {
    if a.max_lines == Some(0usize) {
        Some("--max-lines must be greater than 0"@)
    } else if a.with_line_numbers && a.format != GetFormat::Text {
        Some("--with-line-numbers can only be used with --format text"@)
    } else {
        None
    }
}

/// The usage error of a `find` invocation, if any.
pub open spec fn find_args_error(a: FindArgs) -> Option<Seq<char>> {
    if a.max_matches == 0 {
        Some("--max-matches must be greater than 0"@)
    } else {
        None
    }
}

pub open spec fn cli_error(c: Cli) -> Option<Seq<char>> {
    match c.command {
        Commands::Tree(a) => tree_args_error(a),
        Commands::Get(a) => get_args_error(a),
        Commands::Find(a) => find_args_error(a),
    }
}

impl TreeArgs {
    fn validate(&self) -> (r: Result<(), UsageError>)
        ensures
            match r {
                Ok(_) => tree_args_error(*self) is None,
                Err(e) => tree_args_error(*self) == Some(e.message_spec()),
            },
    {
        if self.max_depth == Some(0u8) {
            return Err(UsageError::new("--max-depth must be greater than 0"));
        }
        Ok(())
    }
}

impl GetArgs {
    fn validate(&self) -> (r: Result<(), UsageError>)
        ensures
            match r {
                Ok(_) => get_args_error(*self) is None,
                Err(e) => get_args_error(*self) == Some(e.message_spec()),
            },
    {
        if self.max_lines == Some(0usize) {
            return Err(UsageError::new("--max-lines must be greater than 0"));
        }
        if self.with_line_numbers && self.format != GetFormat::Text {
            return Err(UsageError::new("--with-line-numbers can only be used with --format text"));
        }
        Ok(())
    }
}

impl FindArgs {
    fn validate(&self) -> (r: Result<(), UsageError>)
        ensures
            match r {
                Ok(_) => find_args_error(*self) is None,
                Err(e) => find_args_error(*self) == Some(e.message_spec()),
            },
    {
        if self.max_matches == 0 {
            return Err(UsageError::new("--max-matches must be greater than 0"));
        }
        Ok(())
    }
}

impl Cli {
    /// The invocation itself when its option values are consistent, else the usage error.
    pub fn validated(self) -> (r: Result<Self, UsageError>)
        ensures
            match r {
                Ok(c) => c == self && cli_error(self) is None,
                Err(e) => cli_error(self) == Some(e.message_spec()),
            },
    {
        match &self.command {
            Commands::Get(args) => {
                if let Err(e) = args.validate() {
                    return Err(e);
                }
            },
            Commands::Tree(args) => {
                if let Err(e) = args.validate() {
                    return Err(e);
                }
            },
            Commands::Find(args) => {
                if let Err(e) = args.validate() {
                    return Err(e);
                }
            },
        }
        Ok(self)
    }
}

} // verus!
