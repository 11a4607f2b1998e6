use vstd::prelude::*;

verus! {

/// One file's line counts within a commit.
#[derive(Debug)]
pub struct FileChange {
    pub added: u64,
    pub deleted: u64,
    pub filename: String,
}

pub struct FileChangeView {
    pub added: u64,
    pub deleted: u64,
    pub filename: Seq<char>,
}

impl View for FileChange {
    type V = FileChangeView;

    open spec fn view(&self) -> FileChangeView {
        FileChangeView { added: self.added, deleted: self.deleted, filename: self.filename@ }
    }
}

/// One commit: its short hash, its time in seconds since the Unix epoch (UTC), its author,
/// the first line of its message, and the files it changed, in log order.
#[derive(Debug)]
pub struct GitCommit {
    pub commit: String,
    pub date: i64,
    pub author: String,
    pub summary: String,
    pub files: Vec<FileChange>,
}

pub struct CommitView {
    pub commit: Seq<char>,
    pub date: i64,
    pub author: Seq<char>,
    pub summary: Seq<char>,
    pub files: Seq<FileChangeView>,
}

pub open spec fn files_view(files: Seq<FileChange>) -> Seq<FileChangeView> {
    files.map_values(|f: FileChange| f@)
}

impl View for GitCommit {
    type V = CommitView;

    open spec fn view(&self) -> CommitView {
        CommitView {
            commit: self.commit@,
            date: self.date,
            author: self.author@,
            summary: self.summary@,
            files: files_view(self.files@),
        }
    }
}

pub open spec fn commits_view(cs: Seq<GitCommit>) -> Seq<CommitView> {
    cs.map_values(|c: GitCommit| c@)
}

pub open spec fn opt_commit_view(c: Option<GitCommit>) -> Option<CommitView> {
    match c {
        Some(c) => Some(c@),
        None => None,
    }
}

/// A file that appeared next to the queried one, with the number of commits they shared.
#[derive(Debug)]
pub struct SeenWith {
    pub _id: String,
    pub count: u64,
}

/// The number of commits that touched the queried file.
#[derive(Debug, Clone, Copy)]
pub struct CommitCount {
    pub commit: u64,
}

/// Coupling of a file: how often it was changed, and with which other files.
#[derive(Debug)]
pub struct FileCoupling {
    pub total_commits: Vec<CommitCount>,
    pub seen_with: Vec<SeenWith>,
}

impl FileCoupling {
    /// The number of commits that touched the queried file: zero when the store found none,
    /// so that an empty count list is never indexed.
    pub fn total(&self) -> (r: u64)
        ensures
            self.total_commits@.len() == 0 ==> r == 0,
            self.total_commits@.len() > 0 ==> r == self.total_commits@[0].commit,
    {
        if self.total_commits.len() == 0 {
            0
        } else {
            self.total_commits[0].commit
        }
    }
}

/// A key (an author or a file) and how many rows carried it.
#[derive(Debug)]
pub struct FileOwnership {
    pub _id: String,
    pub count: u64,
}

/// An author's commits and the file changes they held in all.
#[derive(Debug)]
pub struct FilesPerCommit {
    pub _id: String,
    pub total_files: u64,
    pub n_commits: u64,
}

/// Where the store can be reached.
#[derive(Debug)]
pub struct Config {
    pub mongo_uri: String,
    pub database: String,
    pub collection: String,
}

} // verus!
