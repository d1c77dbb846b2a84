//! Turns an existing project tree into a parameterized template.
//!
//! Three substitution strategies rewrite tokens in file contents and path
//! names into placeholder syntax: an exact literal replacement, a multi-case
//! "shape" replacement that covers every recognized casing convention of a
//! compound word, and an escaping pass that protects placeholder syntax that
//! is already present. A tree planner applies a strategy to a model of a
//! file-system subtree and emits the writes and renames in an order that
//! never uses a path after it has been renamed.

pub mod exact;
pub mod jinja;
pub mod shapes;
pub mod tree;
pub mod text;

use vstd::prelude::*;

verus! {

pub use crate::exact::ExactTemplater;
pub use crate::jinja::JinjaEscaper;
pub use crate::shapes::{CaseShape, CaseShapeMapping, CaseShapeTemplater};
pub use crate::tree::{
    FsNode, FsEvent, TreePlan, Strategy, process_directory, process_directory_interactive,
    process_directory_shapes, process_directory_shapes_interactive, escape_jinja_syntax,
    escape_jinja_syntax_interactive, check_wf,
};

/// Counters accumulated over one traversal: every file visited, every path
/// renamed, and every file whose content changed.
#[derive(Debug, Clone, PartialEq, Eq, Structural)]
pub struct TemplatizeResult {
    pub files_processed: usize,
    pub paths_renamed: usize,
    pub content_changes: usize,
}

/// Option flags for one traversal.
#[derive(Debug, Clone, Copy, PartialEq, Eq, Structural)]
pub struct TemplateOptions {
    pub process_paths: bool,
    pub process_contents: bool,
    pub dry_run: bool,
}

/// Why an invocation was refused.
#[derive(Debug, Clone, PartialEq, Eq)]
pub enum TemplateError {
    /// A target path that cannot be worked on.
    Path { message: String },
    /// Malformed template input, such as a token that is not a compound word.
    Template { message: String },
}

impl TemplateError {
    /// The error's text, for reporting.
    pub fn message(&self) -> (r: String)
        ensures
            r@ == self.message_spec(),
    {
        match self {
            TemplateError::Path { message } => message.clone(),
            TemplateError::Template { message } => message.clone(),
        }
    }

    /// The text either variant carries.
    pub open spec fn message_spec(&self) -> Seq<char> {
        match self {
            TemplateError::Path { message } => message@,
            TemplateError::Template { message } => message@,
        }
    }
}

} // verus!
