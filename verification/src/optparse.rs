//! The command-line options of the `marginalia` command.
use vstd::prelude::*;

verus! {

/// The options of a run.
pub struct Cli {
    /// Base branch to diff against (auto-detects main/master if not given).
    pub base: Option<String>,
    /// Output format.
    pub format: OutputFormat,
}

/// The format of the report.
#[derive(Debug, Clone, Copy, PartialEq, Eq, Structural)]
pub enum OutputFormat {
    Text,
    Json,
}

} // verus!
