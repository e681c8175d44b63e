//! The failures that end a run.

use vstd::prelude::*;

verus! {

/// Why a run was refused or given up. Failures on single files and single
/// lines are not errors: such a file has no lines and such a line is skipped.
#[derive(Debug, Clone, Copy, PartialEq, Eq)]
pub enum GrepError {
    /// The concurrency cap is zero.
    Configuration,
    /// The directory could not be listed, or one of its entries not be read.
    DirectoryAccess,
}

impl GrepError {
    /// The one-line message shown for this error.
    pub fn message(&self) -> (text: String)
        ensures
            text@ == match *self {
                GrepError::Configuration => "Number of threads must be greater than 0"@,
                GrepError::DirectoryAccess => "The directory could not be read"@,
            },
    {
        match self {
            GrepError::Configuration => String::from_str("Number of threads must be greater than 0"),
            GrepError::DirectoryAccess => String::from_str("The directory could not be read"),
        }
    }
}

} // verus!
