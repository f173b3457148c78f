//! The repository state that the notes API reads and writes: the commits that
//! notes can be attached to, with their authors, and the notes themselves.
use crate::authorship::{parse_authorship_log, AuthorshipLog, LogView};
use crate::cleanup::{stripspace, trim};
use crate::error::GitAiError;
use crate::oid::{git_blob_oid, hex_id, is_hex_id, ObjectFormat};
use crate::table::StrTable;
use vstd::prelude::*;

verus! {

/// What a repository holds, as mathematical maps keyed by commit sha.
pub struct RepoView {
    /// The hash function that names the repository's objects.
    pub format: ObjectFormat,
    /// Each commit's git author, as `Name <email>`.
    pub commits: Map<Seq<char>, Seq<char>>,
    /// Each annotated commit's authorship note.
    pub notes: Map<Seq<char>, Seq<char>>,
}

/// The views of a sequence of strings.
pub open spec fn string_views(s: Seq<String>) -> Seq<Seq<char>> {
    s.map_values(|x: String| x@)
}

/// The views of a sequence of string pairs.
pub open spec fn pair_views(s: Seq<(String, String)>) -> Seq<(Seq<char>, Seq<char>)> {
    s.map_values(|x: (String, String)| (x.0@, x.1@))
}

/// The first components of a sequence of pairs.
pub open spec fn firsts(s: Seq<(Seq<char>, Seq<char>)>) -> Seq<Seq<char>> {
    s.map_values(|x: (Seq<char>, Seq<char>)| x.0)
}

impl RepoView {
    /// Every note is attached to a commit of the repository.
    pub open spec fn notes_attached(self) -> bool {
        forall|sha: Seq<char>| #[trigger] self.notes.contains_key(sha) ==> self.commits.contains_key(sha)
    }

    /// Every commit is named by a full object id.
    pub open spec fn ids_valid(self) -> bool {
        forall|sha: Seq<char>| #[trigger] self.commits.contains_key(sha) ==> is_hex_id(self.format, sha)
    }

    /// The note of commit `sha`, if it has one.
    pub open spec fn note(self, sha: Seq<char>) -> Option<Seq<char>> {
        if self.notes.contains_key(sha) {
            Some(self.notes[sha])
        } else {
            None
        }
    }

    /// What reading the note of `sha` shows: the stored text without white
    /// space at either end.
    pub open spec fn shown(self, sha: Seq<char>) -> Option<Seq<char>> {
        match self.note(sha) {
            Some(text) => Some(trim(text)),
            None => None,
        }
    }

    /// The repository after `text` becomes the stored note of `sha`.
    pub open spec fn with_note(self, sha: Seq<char>, text: Seq<char>) -> RepoView {
        RepoView { format: self.format, commits: self.commits, notes: self.notes.insert(sha, text) }
    }

    /// The repository after the note of `sha` is removed.
    pub open spec fn without_note(self, sha: Seq<char>) -> RepoView {
        RepoView { format: self.format, commits: self.commits, notes: self.notes.remove(sha) }
    }

    /// The repository after `content` is written as the note of `sha`: git
    /// cleans the text, and a text that cleans to nothing removes the note.
    pub open spec fn with_written(self, sha: Seq<char>, content: Seq<char>) -> RepoView {
        if stripspace(content).len() == 0 {
            self.without_note(sha)
        } else {
            self.with_note(sha, stripspace(content))
        }
    }

    /// The repository after each `(sha, content)` of `entries` is written in
    /// turn.
    pub open spec fn with_notes(self, entries: Seq<(Seq<char>, Seq<char>)>) -> RepoView
        decreases entries.len(),
    {
        if entries.len() == 0 {
            self
        } else {
            self.with_notes(entries.drop_last()).with_written(entries.last().0, entries.last().1)
        }
    }

    /// The first of `shas` that is not a commit of the repository, if any.
    pub open spec fn first_unknown(self, shas: Seq<Seq<char>>) -> Option<Seq<char>>
        decreases shas.len(),
    {
        if shas.len() == 0 {
            None
        } else {
            match self.first_unknown(shas.drop_last()) {
                Some(sha) => Some(sha),
                None => if self.commits.contains_key(shas.last()) {
                    None
                } else {
                    Some(shas.last())
                },
            }
        }
    }

    /// The distinct members of `shas` that carry a note, in order of first appearance.
    pub open spec fn noted_commits(self, shas: Seq<Seq<char>>) -> Seq<Seq<char>>
        decreases shas.len(),
    {
        if shas.len() == 0 {
            Seq::empty()
        } else {
            let before = self.noted_commits(shas.drop_last());
            if self.notes.contains_key(shas.last()) && !before.contains(shas.last()) {
                before.push(shas.last())
            } else {
                before
            }
        }
    }

    /// The authorship log that the note of `sha`, as shown, holds, if it has
    /// a note and the note is one.
    pub open spec fn authorship(self, sha: Seq<char>) -> Option<LogView> {
        match self.shown(sha) {
            Some(text) => parse_authorship_log(text),
            None => None,
        }
    }

    /// `sha` with its author and its authorship log, if it has one.
    pub open spec fn commit_authorship(self, sha: Seq<char>) -> CommitAuthorshipView {
        match self.authorship(sha) {
            Some(log) => CommitAuthorshipView::Log {
                sha,
                git_author: self.git_author(sha),
                authorship_log: log,
            },
            None => CommitAuthorshipView::NoLog { sha, git_author: self.git_author(sha) },
        }
    }

    /// The distinct noted members of `shas`, in order of first appearance,
    /// each paired with the object id of its note blob.
    pub open spec fn note_blob_oids(self, shas: Seq<Seq<char>>) -> Seq<(Seq<char>, Seq<char>)> {
        self.noted_commits(shas).map_values(|sha: Seq<char>| (sha, git_blob_oid(self.format, self.notes[sha])))
    }

    /// `noted_commits` lists each noted member of `shas` exactly once.
    pub proof fn lemma_noted_commits(self, shas: Seq<Seq<char>>)
        ensures
            self.noted_commits(shas).no_duplicates(),
            forall|sha: Seq<char>|
                #[trigger] self.noted_commits(shas).contains(sha) <==> (shas.contains(sha)
                    && self.notes.contains_key(sha)),
        decreases shas.len(),
    {
        if shas.len() > 0 {
            let before = self.noted_commits(shas.drop_last());
            self.lemma_noted_commits(shas.drop_last());
            assert forall|sha: Seq<char>|
                #[trigger] self.noted_commits(shas).contains(sha) <==> (shas.contains(sha)
                    && self.notes.contains_key(sha)) by {
                if shas.contains(sha) && self.notes.contains_key(sha) {
                    let i = choose|i: int| 0 <= i < shas.len() && shas[i] == sha;
                    if i < shas.len() - 1 {
                        assert(shas.drop_last()[i] == sha);
                        assert(before.contains(sha));
                        if !before.contains(shas.last()) && self.notes.contains_key(shas.last()) {
                            let j = choose|j: int| 0 <= j < before.len() && before[j] == sha;
                            assert(before.push(shas.last())[j] == sha);
                        }
                    } else {
                        if before.contains(sha) {
                        } else {
                            assert(before.push(shas.last())[before.len() as int] == sha);
                        }
                    }
                }
                if self.noted_commits(shas).contains(sha) {
                    let j = choose|j: int| 0 <= j < self.noted_commits(shas).len() && self.noted_commits(shas)[j] == sha;
                    if j < before.len() {
                        assert(before[j] == sha);
                        assert(before.contains(sha));
                        let i = choose|i: int| 0 <= i < shas.drop_last().len() && shas.drop_last()[i] == sha;
                        assert(shas[i] == sha);
                    } else {
                        assert(shas[shas.len() - 1] == sha);
                    }
                }
            }
        }
    }

    /// The git author recorded for `sha`, or `Unknown` for a commit the repository does not hold.
    pub open spec fn git_author(self, sha: Seq<char>) -> Seq<char> {
        if self.commits.contains_key(sha) {
            self.commits[sha]
        } else {
            "Unknown"@
        }
    }
}

/// The schema version of the authorship logs that this library writes and
/// reads strictly.
pub const AUTHORSHIP_LOG_VERSION: &'static str = "authorship/3.0.0";

/// A commit of a list, with its author and, when its note is an authorship
/// log, that log.
#[derive(Debug)]
pub enum CommitAuthorship {
    NoLog { sha: String, git_author: String },
    Log { sha: String, git_author: String, authorship_log: AuthorshipLog },
}

/// A `CommitAuthorship` as a value.
pub enum CommitAuthorshipView {
    NoLog { sha: Seq<char>, git_author: Seq<char> },
    Log { sha: Seq<char>, git_author: Seq<char>, authorship_log: LogView },
}

impl View for CommitAuthorship {
    type V = CommitAuthorshipView;

    open spec fn view(&self) -> CommitAuthorshipView {
        match self {
            CommitAuthorship::NoLog { sha, git_author } => CommitAuthorshipView::NoLog {
                sha: sha@,
                git_author: git_author@,
            },
            CommitAuthorship::Log { sha, git_author, authorship_log } => CommitAuthorshipView::Log {
                sha: sha@,
                git_author: git_author@,
                authorship_log: authorship_log@,
            },
        }
    }
}

/// The views of a sequence of commit authorships.
pub open spec fn authorship_views(s: Seq<CommitAuthorship>) -> Seq<CommitAuthorshipView> {
    s.map_values(|c: CommitAuthorship| c@)
}

/// A repository's commits and its authorship notes.
pub struct Repository {
    format: ObjectFormat,
    commits: StrTable,
    notes: StrTable,
}

impl View for Repository {
    type V = RepoView;

    closed spec fn view(&self) -> RepoView {
        RepoView { format: self.format, commits: self.commits@, notes: self.notes@ }
    }
}

impl Repository {
    /// Internal consistency: both tables are well formed and every note
    /// belongs to a known commit.
    pub closed spec fn wf(&self) -> bool {
        &&& self.commits.wf()
        &&& self.notes.wf()
        &&& self@.notes_attached()
        &&& self@.ids_valid()
    }

    /// What well-formedness promises of the view.
    pub proof fn lemma_wf(&self)
        requires
            self.wf(),
        ensures
            self@.notes_attached(),
            self@.ids_valid(),
    {
    }

    /// A repository without commits or notes.
    pub fn new() -> (r: Self)
        ensures
            r.wf(),
            r@.format == ObjectFormat::Sha1,
            r@.commits == Map::<Seq<char>, Seq<char>>::empty(),
            r@.notes == Map::<Seq<char>, Seq<char>>::empty(),
    {
        Self::with_format(ObjectFormat::Sha1)
    }

    /// A repository without commits or notes whose objects are named by the
    /// given hash function.
    pub fn with_format(format: ObjectFormat) -> (r: Self)
        ensures
            r.wf(),
            r@.format == format,
            r@.commits == Map::<Seq<char>, Seq<char>>::empty(),
            r@.notes == Map::<Seq<char>, Seq<char>>::empty(),
    {
        Repository { format, commits: StrTable::new(), notes: StrTable::new() }
    }

    /// The hash function that names the repository's objects.
    pub fn format(&self) -> (f: ObjectFormat)
        ensures
            f == self@.format,
    {
        self.format
    }

    /// Records commit `sha` with its git author (`Name <email>`); a commit
    /// recorded again takes the new author.
    pub fn add_commit(&mut self, sha: &str, git_author: &str) -> (r: Result<(), GitAiError>)
        requires
            old(self).wf(),
        ensures
            final(self).wf(),
            match r {
                Ok(()) => is_hex_id(old(self)@.format, sha@) && final(self)@.commits == old(self)@.commits.insert(sha@, git_author@)
                    && final(self)@.notes == old(self)@.notes,
                Err(GitAiError::InvalidCommitId { commit_sha }) => !is_hex_id(old(self)@.format, sha@) && commit_sha@ == sha@
                    && final(self)@ == old(self)@,
                Err(_) => false,
            },
    {
        if !hex_id(self.format, sha) {
            return Err(GitAiError::InvalidCommitId { commit_sha: sha.to_owned() });
        }
        self.commits.insert(sha, git_author);
        assert forall|s: Seq<char>| #[trigger] self@.commits.contains_key(s) implies is_hex_id(self@.format, s) by {
            if s != sha@ {
                assert(old(self)@.commits.contains_key(s));
            }
        }
        assert forall|s: Seq<char>| #[trigger] self@.notes.contains_key(s) implies self@.commits.contains_key(s) by {
            assert(old(self)@.notes.contains_key(s));
        }
        Ok(())
    }

    /// Whether the repository holds commit `sha`.
    pub fn has_commit(&self, sha: &str) -> (b: bool)
        requires
            self.wf(),
        ensures
            b == self@.commits.contains_key(sha@),
    {
        self.commits.contains_key(sha)
    }

    /// The git author of `sha`, or `Unknown` for a commit the repository does not hold.
    pub fn git_author(&self, sha: &str) -> (a: String)
        requires
            self.wf(),
        ensures
            a@ == self@.git_author(sha@),
    {
        match self.commits.get(sha) {
            Some(a) => a,
            None => "Unknown".to_owned(),
        }
    }

    /// Records `text`, as the notes ref already stores it, as the note of
    /// `sha`. Fails, changing nothing, when the repository does not hold the
    /// commit.
    pub fn load_note(&mut self, sha: &str, text: &str) -> (r: Result<(), GitAiError>)
        requires
            old(self).wf(),
        ensures
            final(self).wf(),
            match r {
                Ok(()) => old(self)@.commits.contains_key(sha@) && final(self)@ == old(self)@.with_note(sha@, text@),
                Err(GitAiError::UnknownCommit { commit_sha }) => !old(self)@.commits.contains_key(sha@)
                    && commit_sha@ == sha@ && final(self)@ == old(self)@,
                Err(_) => false,
            },
    {
        if !self.has_commit(sha) {
            return Err(GitAiError::UnknownCommit { commit_sha: sha.to_owned() });
        }
        self.set_note(sha, text);
        Ok(())
    }

    /// The note table, for reading in order.
    pub(crate) fn note_table(&self) -> (t: &StrTable)
        requires
            self.wf(),
        ensures
            t.wf(),
            t@ == self@.notes,
    {
        &self.notes
    }

    /// Removes the note of `sha`, if it has one.
    pub(crate) fn remove_note(&mut self, sha: &str)
        requires
            old(self).wf(),
        ensures
            final(self).wf(),
            final(self)@ == old(self)@.without_note(sha@),
    {
        self.notes.remove(sha);
        assert forall|s: Seq<char>| #[trigger] self@.notes.contains_key(s) implies self@.commits.contains_key(s) by {
            assert(old(self)@.notes.contains_key(s));
        }
    }

    /// Makes `text` the note of the known commit `sha`.
    pub(crate) fn set_note(&mut self, sha: &str, text: &str)
        requires
            old(self).wf(),
            old(self)@.commits.contains_key(sha@),
        ensures
            final(self).wf(),
            final(self)@ == old(self)@.with_note(sha@, text@),
    {
        self.notes.insert(sha, text);
        assert forall|s: Seq<char>| #[trigger] self@.notes.contains_key(s) implies self@.commits.contains_key(s) by {
            if s != sha@ {
                assert(old(self)@.notes.contains_key(s));
            }
        }
    }
}

} // verus!
