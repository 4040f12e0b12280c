//! The errors that the sorter can report.

use vstd::prelude::*;

verus! {

/// Why a sort run failed.
#[derive(Debug, Clone, Copy, PartialEq, Eq, Structural)]
pub enum SortError {
    /// A single line did not fit into one read buffer: a full buffer was
    /// read and no newline byte was found in it.
    LineTooLarge { buffer_size: usize },
    /// The configuration is unusable; nothing was read or written.
    ConfigInvalid,
}

impl SortError {
    /// A short human-readable description of the error.
    pub fn message(&self) -> &'static str {
        match self {
            SortError::LineTooLarge { buffer_size: _ } => "a line does not fit into one read buffer",
            SortError::ConfigInvalid => "invalid configuration",
        }
    }
}

} // verus!
