//! Errors of the notes API.
use vstd::prelude::*;

verus! {

/// What can go wrong when reading or writing authorship notes.
#[derive(Debug)]
pub enum GitAiError {
    /// A commit id that is not a full lowercase hex object id of the
    /// repository's object format.
    InvalidCommitId { commit_sha: String },
    /// A note was to be attached to a commit that the repository does not hold.
    UnknownCommit { commit_sha: String },
    /// The commit carries no authorship note.
    NoteNotFound { commit_sha: String },
    /// The commit's note is not a well-formed authorship log.
    InvalidAuthorshipLog { commit_sha: String },
    /// The note is an authorship log of another schema version.
    UnsupportedVersion { found: String },
    /// A search pattern that is not a well-formed basic regular expression.
    InvalidPattern { pattern: String },
    /// The regular-expression engine gave up on the note of this commit.
    SearchFailed { commit_sha: String },
}

} // verus!
