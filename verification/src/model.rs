//! The records that the knowledge base stores and reports.
use vstd::prelude::*;

verus! {

/// A technology stack, with the number of snippets filed under it.
#[derive(Clone, Debug)]
pub struct StackInfo {
    /// Stack number.
    pub id: u32,
    /// Stack name.
    pub name: String,
    /// Stack description.
    pub description: String,
    /// Number of snippets in the stack.
    pub count: u64,
}

/// A code snippet.
#[derive(Clone, Debug)]
pub struct Snippet {
    /// Snippet number.
    pub id: u64,
    /// Number of the stack it belongs to.
    pub stack_id: u32,
    /// Chinese index text.
    pub zh_index: String,
    /// English index text.
    pub en_index: String,
    /// The code itself.
    pub code_snippet: String,
    /// Chinese explanation.
    pub zh_comment: String,
    /// Creation time, `YYYY-MM-DD HH:MM:SS`.
    pub created_at: String,
    /// Last update time, `YYYY-MM-DD HH:MM:SS`.
    pub updated_at: String,
}

/// What the SQL console shows for one statement.
#[derive(Clone, Debug)]
pub struct SqlResult {
    /// Column names.
    pub columns: Vec<String>,
    /// Rows, each value rendered as SQL text.
    pub rows: Vec<Vec<String>>,
    /// Number of affected rows.
    pub affected: u64,
}

/// Counts reported after an export.
#[derive(Clone, Copy, Debug, PartialEq, Eq, Structural)]
pub struct ExportSummary {
    /// Number of stacks written.
    pub stacks: usize,
    /// Number of snippets written.
    pub snippets: usize,
}

/// Counts reported after an import.
#[derive(Clone, Copy, Debug, PartialEq, Eq, Structural)]
pub struct ImportSummary {
    /// Stacks that had to be created.
    pub stacks_created: usize,
    /// Stacks that were already present.
    pub stacks_existed: usize,
    /// Snippets inserted.
    pub snippets_imported: usize,
    /// Snippets left out (number already taken, or no stack).
    pub snippets_skipped: usize,
}

impl ImportSummary {
    /// All counts zero.
    pub open spec fn zero() -> ImportSummary {
        ImportSummary {
            stacks_created: 0,
            stacks_existed: 0,
            snippets_imported: 0,
            snippets_skipped: 0,
        }
    }
}

impl Default for ImportSummary {
    fn default() -> (r: ImportSummary)
        ensures
            r == ImportSummary::zero(),
    {
        ImportSummary {
            stacks_created: 0,
            stacks_existed: 0,
            snippets_imported: 0,
            snippets_skipped: 0,
        }
    }
}

} // verus!
