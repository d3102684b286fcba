//! The error kinds the tool reports.

use vstd::prelude::*;
use vstd::string::StringExecFns;

verus! {

/// A failure of one step of a run. Each variant carries the path it is
/// about.
pub enum DedupError {
    /// The root path is missing or is not a directory; fatal, reported
    /// before any scanning.
    NotFoundError { path: String },
    /// A candidate file could not be opened or read; fatal for the
    /// raw-bytes fingerprinting strategy.
    DecodeError { path: String },
    /// One path of a duplicate group could not be deleted; reported per
    /// file, the remaining deletions still run.
    DeleteError { path: String },
}

impl DedupError {
    /// The path the error is about.
    pub open spec fn spec_path(&self) -> Seq<char> {
        match self {
            DedupError::NotFoundError { path } => path@,
            DedupError::DecodeError { path } => path@,
            DedupError::DeleteError { path } => path@,
        }
    }

    /// The message the tool prints for this error.
    pub open spec fn spec_message(&self) -> Seq<char> {
        match self {
            DedupError::NotFoundError { path } => "Folder not found at "@ + path@,
            DedupError::DecodeError { path } => "Could not read file "@ + path@,
            DedupError::DeleteError { path } => "Error deleting "@ + path@,
        }
    }

    /// Renders the message for this error.
    pub fn message(&self) -> (r: String)
        ensures
            r@ == self.spec_message(),
    {
        match self {
            DedupError::NotFoundError { path } => {
                let mut m = "Folder not found at ".to_owned();
                m.append(path.as_str());
                m
            },
            DedupError::DecodeError { path } => {
                let mut m = "Could not read file ".to_owned();
                m.append(path.as_str());
                m
            },
            DedupError::DeleteError { path } => {
                let mut m = "Error deleting ".to_owned();
                m.append(path.as_str());
                m
            },
        }
    }
}

} // verus!
