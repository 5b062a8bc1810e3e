//! The records that a comparison produces.

use vstd::prelude::*;

verus! {

/// What happened to one line.
#[derive(Debug, Clone, Copy, PartialEq, Eq, Structural)]
pub enum ChangeType {
    Add,
    Delete,
    Modify,
    Context,
}

/// One line of a comparison: its fate, its numbers on each side (1-based) and its text.
#[derive(Debug, Clone)]
pub struct LineChange {
    pub change_type: ChangeType,
    pub old_line_num: Option<usize>,
    pub new_line_num: Option<usize>,
    pub content: String,
}

/// The mathematical value of a `LineChange`.
pub struct LineView {
    pub kind: ChangeType,
    pub old_num: Option<int>,
    pub new_num: Option<int>,
    pub content: Seq<char>,
}

pub open spec fn opt_int(o: Option<usize>) -> Option<int> {
    match o {
        Some(n) => Some(n as int),
        None => None,
    }
}

impl View for LineChange {
    type V = LineView;

    open spec fn view(&self) -> LineView {
        LineView {
            kind: self.change_type,
            old_num: opt_int(self.old_line_num),
            new_num: opt_int(self.new_line_num),
            content: self.content@,
        }
    }
}

pub open spec fn line_views(s: Seq<LineChange>) -> Seq<LineView> {
    s.map_values(|l: LineChange| l@)
}

/// A contiguous region of change.
#[derive(Debug, Clone)]
pub struct Hunk {
    pub old_start: usize,
    pub old_count: usize,
    pub new_start: usize,
    pub new_count: usize,
    pub lines: Vec<LineChange>,
}

/// The mathematical value of a `Hunk`.
pub struct HunkView {
    pub old_start: int,
    pub old_count: int,
    pub new_start: int,
    pub new_count: int,
    pub lines: Seq<LineView>,
}

impl View for Hunk {
    type V = HunkView;

    open spec fn view(&self) -> HunkView {
        HunkView {
            old_start: self.old_start as int,
            old_count: self.old_count as int,
            new_start: self.new_start as int,
            new_count: self.new_count as int,
            lines: line_views(self.lines@),
        }
    }
}

pub open spec fn hunk_views(s: Seq<Hunk>) -> Seq<HunkView> {
    s.map_values(|h: Hunk| h@)
}

/// The result of comparing one pair of files.
#[derive(Debug, Clone)]
pub struct FileDiff {
    pub path: String,
    pub old_path: String,
    pub new_path: String,
    pub is_binary: bool,
    pub is_new: bool,
    pub is_deleted: bool,
    pub hunks: Vec<Hunk>,
    pub full_content: Option<Vec<LineChange>>,
}

/// The result of a comparison over one or more files.
#[derive(Debug, Clone)]
pub struct DiffResult {
    pub files: Vec<FileDiff>,
    pub total_additions: usize,
    pub total_deletions: usize,
    pub total_files_changed: usize,
}

/// How lines are compared.
#[derive(Debug, Clone, Copy)]
pub struct DiffOptions {
    pub context_lines: usize,
    pub ignore_whitespace: bool,
    pub ignore_case: bool,
}

impl Default for DiffOptions {
    fn default() -> (r: Self)
        ensures
            r.context_lines == 3,
            !r.ignore_whitespace,
            !r.ignore_case,
    {
        DiffOptions { context_lines: 3, ignore_whitespace: false, ignore_case: false }
    }
}

/// Why a comparison failed.
#[derive(Debug, Clone)]
pub enum DiffError {
    FileNotFound(String),
    PermissionDenied(String),
    IoError(String),
    BinaryFile(String),
    EncodingError(String),
    WebServerError(String),
}

} // verus!
