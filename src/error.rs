//! The failures that repository operations report.
use vstd::prelude::*;
use vstd::string::StringExecFns;

verus! {

/// Why an operation failed. The text carried by a variant names the
/// offending object, path or content.
#[derive(Debug, Clone, PartialEq, Eq)]
pub enum VcsError {
    /// The repository has no object store.
    NotInitialized,
    /// An object, ref or branch is absent.
    NotFound(String),
    /// An index line or a commit text does not parse.
    Malformed(String),
    /// A stored object does not decode.
    Corrupt(String),
    /// The file system failed.
    IoFailure(String),
    /// An argument names something that cannot be used here.
    InvalidArgument(String),
    /// A commit would record the same tree as its parent.
    NoChanges,
    /// Both sides of a merge changed these paths differently.
    Conflict(Vec<String>),
    /// A fast-forward was asked for where the histories have diverged.
    NotFastForward,
}

impl VcsError {
    /// A one-line description of the failure: a fixed phrase, followed by
    /// the text that the variant carries.
    pub fn message(&self) -> (r: String)
        ensures
            self matches VcsError::NotFound(w) ==> r@ == "not found: "@ + w@,
            self matches VcsError::Malformed(w) ==> r@ == "malformed content: "@ + w@,
            self matches VcsError::Corrupt(w) ==> r@ == "corrupt object: "@ + w@,
            self matches VcsError::IoFailure(w) ==> r@ == "i/o failure: "@ + w@,
            self matches VcsError::InvalidArgument(w) ==> r@ == "invalid argument: "@ + w@,
            self is NotInitialized ==> r@ == "the repository is not initialized"@,
            self is NoChanges ==> r@ == "No changes detected. Commit aborted."@,
            self is NotFastForward ==> r@ == "the histories have diverged: no fast-forward"@,
            self is Conflict ==> "merge conflict in:"@.len() <= r@.len() && r@.take(
                "merge conflict in:"@.len() as int,
            ) == "merge conflict in:"@,
    {
        match self {
            VcsError::NotInitialized => "the repository is not initialized".to_string(),
            VcsError::NotFound(what) => {
                let mut m = "not found: ".to_string();
                m.append(what.as_str());
                m
            },
            VcsError::Malformed(what) => {
                let mut m = "malformed content: ".to_string();
                m.append(what.as_str());
                m
            },
            VcsError::Corrupt(what) => {
                let mut m = "corrupt object: ".to_string();
                m.append(what.as_str());
                m
            },
            VcsError::IoFailure(what) => {
                let mut m = "i/o failure: ".to_string();
                m.append(what.as_str());
                m
            },
            VcsError::InvalidArgument(what) => {
                let mut m = "invalid argument: ".to_string();
                m.append(what.as_str());
                m
            },
            VcsError::NoChanges => "No changes detected. Commit aborted.".to_string(),
            VcsError::Conflict(paths) => {
                let mut m = "merge conflict in:".to_string();
                let ghost start = m@;
                let mut i: usize = 0;
                while i < paths.len()
                    invariant
                        start == "merge conflict in:"@,
                        start.len() <= m@.len(),
                        m@.take(start.len() as int) == start,
                    decreases paths.len() - i,
                {
                    m.append(" ");
                    m.append(paths[i].as_str());
                    i += 1;
                }
                m
            },
            VcsError::NotFastForward => "the histories have diverged: no fast-forward".to_string(),
        }
    }
}

} // verus!
