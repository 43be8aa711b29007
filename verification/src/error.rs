//! The ways in which building or rebuilding an archive can fail.

use vstd::prelude::*;

verus! {

/// Why an item could not be processed.
#[derive(Clone, Copy, Debug, PartialEq, Eq, Structural)]
pub enum ArchiveError {
    /// The archive's entry table cannot be read, or lists a file without a name.
    MalformedArchive,
    /// The payload of a file that was chosen for the archive cannot be had in full.
    Unreadable,
    /// The archive writer refuses an entry, or cannot finish the archive.
    Unwritable,
    /// The destination is there already and overwriting was not asked for.
    DestinationExists,
    /// The input has no final name from which a destination could be made.
    NoDestination,
}

impl ArchiveError {
    /// A line of text that says what went wrong.
    pub fn message(&self) -> (r: &'static str)
        ensures
            r@ == match *self {
                ArchiveError::MalformedArchive => "malformed archive"@,
                ArchiveError::Unreadable => "unreadable file"@,
                ArchiveError::Unwritable => "archive cannot be written"@,
                ArchiveError::DestinationExists => "intended path exists"@,
                ArchiveError::NoDestination => "must not be root directory"@,
            },
    {
        match self {
            ArchiveError::MalformedArchive => "malformed archive",
            ArchiveError::Unreadable => "unreadable file",
            ArchiveError::Unwritable => "archive cannot be written",
            ArchiveError::DestinationExists => "intended path exists",
            ArchiveError::NoDestination => "must not be root directory",
        }
    }
}

} // verus!
