//! Filename sanitization: the rules that map a path component to a safe
//! name, and the decisions behind renaming a whole directory tree.
//!
//! Nothing here touches the file system. The caller looks up what the rules
//! need to know (is this a directory, does that path exist), and carries out
//! the renames that the library decides on.

pub mod classify;
pub mod cli;
pub mod compose;
pub mod rename;
pub mod sanitize;
pub mod startup;
pub mod text;
pub mod traversal;
pub mod walk;

pub use crate::classify::{extract_extension, has_dot, has_extension, is_hidden};
pub use crate::cli::{parse_args, print_usage, validate_replacement, CliError, Config, USAGE};
pub use crate::compose::sanitized_filename;
pub use crate::rename::{decide_rename, rename_path, RenameAction, RenameOutcome};
pub use crate::sanitize::{sanitize_component, SanitizeMode};
pub use crate::startup::{run_with_args, Startup};
pub use crate::walk::{run, sanitize_directory_tree, Reply, Request, Runner};
