//! What can go wrong while a tree is read from bytes or queried.

use vstd::prelude::*;

verus! {

/// The failures that the crate reports.  None is retried: each goes to the
/// immediate caller.
#[derive(Debug, Clone, Copy, PartialEq, Eq, Structural)]
pub enum BkError {
    /// The file does not begin with the magic line.
    UnknownFormat,
    /// The checksum line names an algorithm other than SHA-256.
    UnknownChecksum,
    /// The file ends inside its textual prefix.
    TruncatedHeader,
    /// The descriptor lacks one of the four sections.
    MissingSection,
    /// A section has no fixed item size, or one that cannot be read.
    UnsupportedItemSize,
    /// A section lies outside the file, or its length is not a multiple of
    /// its item size.
    MalformedSection,
    /// A field of a node lies past the end of its section.
    Truncated,
    /// The nodes do not form a tree.
    MalformedTree,
    /// The checksum line does not match the digest of the file's contents.
    ChecksumMismatch,
    /// The backing storage cannot grow as far as was asked.
    OutOfStorage,
}

impl BkError {
    /// Whether the data is not in the format that this crate reads.
    pub open spec fn spec_is_format_error(self) -> bool {
        !(self is ChecksumMismatch) && !(self is OutOfStorage)
    }

    /// Whether the data was altered after it was written.
    pub open spec fn spec_is_integrity_error(self) -> bool {
        self is ChecksumMismatch
    }

    /// Whether the data is not in the format that this crate reads.
    #[verifier::when_used_as_spec(spec_is_format_error)]
    pub fn is_format_error(self) -> (b: bool)
        ensures
            b == self.spec_is_format_error(),
    {
        match self {
            BkError::ChecksumMismatch => false,
            BkError::OutOfStorage => false,
            _ => true,
        }
    }

    /// Whether the data was altered after it was written.
    #[verifier::when_used_as_spec(spec_is_integrity_error)]
    pub fn is_integrity_error(self) -> (b: bool)
        ensures
            b == self.spec_is_integrity_error(),
    {
        match self {
            BkError::ChecksumMismatch => true,
            _ => false,
        }
    }

    /// A sentence that names the failure.
    pub open spec fn spec_message(self) -> &'static str {
        match self {
            BkError::UnknownFormat => "Unknown file format (expected \"BKTREE: 0000\")",
            BkError::UnknownChecksum => "Unknown checksum format (expected \"SHA256\")",
            BkError::TruncatedHeader => "The file ends inside its header",
            BkError::MissingSection => "The descriptor lacks a section",
            BkError::UnsupportedItemSize => "A section has an item size that cannot be read",
            BkError::MalformedSection => "A section does not fit the file",
            BkError::Truncated => "A node lies past the end of a section",
            BkError::MalformedTree => "The nodes do not form a tree",
            BkError::ChecksumMismatch => "Checksum failure",
            BkError::OutOfStorage => "The backing storage cannot grow any further",
        }
    }

    /// A sentence that names the failure.
    #[verifier::when_used_as_spec(spec_message)]
    pub fn message(self) -> (text: &'static str)
        ensures
            text == self.spec_message(),
    {
        match self {
            BkError::UnknownFormat => "Unknown file format (expected \"BKTREE: 0000\")",
            BkError::UnknownChecksum => "Unknown checksum format (expected \"SHA256\")",
            BkError::TruncatedHeader => "The file ends inside its header",
            BkError::MissingSection => "The descriptor lacks a section",
            BkError::UnsupportedItemSize => "A section has an item size that cannot be read",
            BkError::MalformedSection => "A section does not fit the file",
            BkError::Truncated => "A node lies past the end of a section",
            BkError::MalformedTree => "The nodes do not form a tree",
            BkError::ChecksumMismatch => "Checksum failure",
            BkError::OutOfStorage => "The backing storage cannot grow any further",
        }
    }
}

} // verus!
