//! The records that the engine takes and gives, and their mathematical views.

use vstd::prelude::*;
use crate::format::OutputFormat;

verus! {

/// One discovered file, as a value of the model.
pub struct FileRecord {
    pub path: Seq<char>,
    pub size: u64,
}

/// One discovered file: its path relative to the root, with `/` between the
/// segments, and its size in bytes.
#[derive(Debug, Clone, PartialEq, Eq)]
pub struct FileInfo {
    pub path: String,
    pub size: u64,
}

impl View for FileInfo {
    type V = FileRecord;

    open spec fn view(&self) -> FileRecord {
        FileRecord { path: self.path@, size: self.size }
    }
}

/// One matching line of a file, as a value of the model.
pub struct SearchHit {
    pub path: Seq<char>,
    pub line: nat,
    pub content: Seq<char>,
}

/// One matching line of a file: the file's path, the line's number counted
/// from 1, and the line without the whitespace at its ends.
#[derive(Debug, Clone, PartialEq, Eq)]
pub struct SearchResult {
    pub path: String,
    pub line: usize,
    pub content: String,
}

impl View for SearchResult {
    type V = SearchHit;

    open spec fn view(&self) -> SearchHit {
        SearchHit { path: self.path@, line: self.line as nat, content: self.content@ }
    }
}

/// One entry of a walked tree, as a value of the model.
pub struct EntryView {
    pub path: Seq<char>,
    pub is_file: bool,
    pub ignored: bool,
    pub size: Option<u64>,
}

/// One entry that a walk of the tree produced.
///
/// `ignored` is the verdict of the ignore rules on the entry. `size` is the
/// byte count from the entry's metadata, or `None` where it could not be read.
#[derive(Debug, Clone, PartialEq, Eq)]
pub struct Entry {
    pub path: String,
    pub is_file: bool,
    pub ignored: bool,
    pub size: Option<u64>,
}

impl View for Entry {
    type V = EntryView;

    open spec fn view(&self) -> EntryView {
        EntryView {
            path: self.path@,
            is_file: self.is_file,
            ignored: self.ignored,
            size: self.size,
        }
    }
}

/// The texts that a sequence of strings holds.
pub open spec fn texts(v: Seq<String>) -> Seq<Seq<char>> {
    Seq::new(v.len(), |i: int| v[i]@)
}

/// The records that a sequence of files holds.
pub open spec fn records(v: Seq<FileInfo>) -> Seq<FileRecord> {
    Seq::new(v.len(), |i: int| v[i]@)
}

/// The hits that a sequence of search results holds.
pub open spec fn hits(v: Seq<SearchResult>) -> Seq<SearchHit> {
    Seq::new(v.len(), |i: int| v[i]@)
}

/// The entries of a walk, as values of the model.
pub open spec fn entries(v: Seq<Entry>) -> Seq<EntryView> {
    Seq::new(v.len(), |i: int| v[i]@)
}

/// The first `limit` items of `s`, or all of `s` where it holds no more.
pub open spec fn capped<T>(s: Seq<T>, limit: nat) -> Seq<T> {
    if s.len() <= limit {
        s
    } else {
        s.take(limit as int)
    }
}

/// The configuration of a run, as a value of the model.
pub struct ConfigView {
    pub root: Seq<char>,
    pub respect_ignore_rules: bool,
    pub include_hidden: bool,
    pub exclude_substrings: Seq<Seq<char>>,
    pub result_limit: nat,
    pub output_format: OutputFormat,
    pub streaming: bool,
}

/// The configuration that a caller hands to a run.
#[derive(Debug, Clone, PartialEq, Eq)]
pub struct TraversalConfig {
    /// The directory that all paths are relative to.
    pub root: String,
    /// Entries that the ignore rules match are skipped.
    pub respect_ignore_rules: bool,
    /// Entries with a segment that begins with a dot are kept.
    pub include_hidden: bool,
    /// A path that holds one of these literal substrings is skipped.
    pub exclude_substrings: Vec<String>,
    /// No run gives more results than this.
    pub result_limit: usize,
    /// The encoding of the output.
    pub output_format: OutputFormat,
    /// Results are written as they are found.
    pub streaming: bool,
}

impl View for TraversalConfig {
    type V = ConfigView;

    open spec fn view(&self) -> ConfigView {
        ConfigView {
            root: self.root@,
            respect_ignore_rules: self.respect_ignore_rules,
            include_hidden: self.include_hidden,
            exclude_substrings: texts(self.exclude_substrings@),
            result_limit: self.result_limit as nat,
            output_format: self.output_format,
            streaming: self.streaming,
        }
    }
}

} // verus!
