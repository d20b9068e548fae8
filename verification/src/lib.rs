//! Markdown navigation: an annotated outline with stable section ids,
//! section extraction by id, and line search mapped to sections.
pub mod cli;
pub mod command;
pub mod document;
pub mod error;
pub mod json_laws;
pub mod laws;
pub mod render;
pub mod search;
pub mod section;
pub mod summary;
pub mod text;

pub use crate::cli::{
    Cli, Commands, FindArgs, FindFormat, GetArgs, GetFormat, TreeArgs, TreeFormat,
};
pub use crate::command::{execute, Report};
pub use crate::document::{Document, Heading, HeadingKind};
pub use crate::error::{
    escape_json_string, AppError, ErrorFormat, InputError, UsageError, EXIT_FILE_ERROR,
    EXIT_INTERNAL_ERROR, EXIT_SECTION_NOT_FOUND, EXIT_SUCCESS, EXIT_USAGE_ERROR,
};
pub use crate::section::{Section, SectionIndex, ROOT_SECTION_ID};
pub use crate::summary::{SummaryBlock, SummaryKind};
