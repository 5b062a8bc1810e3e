//! Comparison of one pair of texts.

use vstd::prelude::*;
use vstd::slice::slice_subrange;
use vstd::string::StringSliceAdditionalSpecFns;

use crate::align::{aligned_script, is_script, lemma_numbers_increase, lemma_runs_are_changes, lemma_hunk_line_origin, line_at, new_used, old_used, runs, lemma_runs_all_equal, lemma_plain_keys_faithful, lemma_stream_reconstructs, new_side, old_side, align_lines, group_hunks, hunks_of, keys_of, line_keys, script_for, stream_of, EditTag};
use crate::line_index::{decoded_text_lines, lemma_text_lines_valid, string_views, text_lines, text_lines_valid};
use crate::types::{ChangeType, DiffError, DiffOptions, FileDiff, Hunk, HunkView, LineChange, LineView, hunk_views, line_views};

verus! {

/// How many leading bytes are examined to tell a binary file from a text.
pub const BINARY_PROBE_LEN: usize = 8192;

/// Whether `data` counts as binary: a zero byte among its first `BINARY_PROBE_LEN` bytes.
pub open spec fn binary_bytes(data: Seq<u8>) -> bool {
    exists|j: int| 0 <= j < data.len() && j < BINARY_PROBE_LEN && data[j] == 0
}

/// Whether `data` counts as binary.
pub fn is_binary_content(data: &[u8]) -> (r: bool)
    ensures
        r == binary_bytes(data@),
{
    let n = if data.len() < BINARY_PROBE_LEN {
        data.len()
    } else {
        BINARY_PROBE_LEN
    };
    let prefix = slice_subrange(data, 0, n);
    match memchr::memchr(0, prefix) {
        Some(i) => {
            assert(prefix@[i as int] == data@[i as int]);
            true
        },
        None => {
            assert forall|j: int| 0 <= j < data@.len() && j < BINARY_PROBE_LEN implies data@[j] != 0 by {
                assert(prefix@[j] == data@[j]);
            }
            false
        },
    }
}

/// The marker that stands for the path of a file that does not exist.
pub open spec fn absent_path() -> Seq<char> {
    seq!['/', 'd', 'e', 'v', '/', 'n', 'u', 'l', 'l']
}

/// The path of a file that does not exist.
pub fn absent_marker() -> (r: String)
    ensures
        r@ == absent_path(),
{
    let r = "/dev/null".to_owned();
    proof {
        reveal_strlit("/dev/null");
    }
    r
}

/// The script that aligns two line sequences under `opts`.
pub open spec fn whole_script(opts: DiffOptions, a: Seq<Seq<char>>, b: Seq<Seq<char>>) -> Seq<
    EditTag,
> {
    aligned_script(keys_of(opts, a), keys_of(opts, b))
}

/// Every line of `b`, kept, numbered from 1 on both sides: the new file shown whole.
pub open spec fn full_view(b: Seq<Seq<char>>) -> Seq<LineView> {
    Seq::new(
        b.len(),
        |k: int|
            LineView {
                kind: ChangeType::Context,
                old_num: Some(k + 1),
                new_num: Some(k + 1),
                content: b[k],
            },
    )
}

/// The single hunk of a file that exists only on the new side.
pub open spec fn added_hunk(b: Seq<Seq<char>>) -> HunkView {
    HunkView {
        old_start: 0,
        old_count: 0,
        new_start: 1,
        new_count: b.len() as int,
        lines: Seq::new(
            b.len(),
            |k: int| LineView { kind: ChangeType::Add, old_num: None, new_num: Some(k + 1), content: b[k] },
        ),
    }
}

/// The single hunk of a file that exists only on the old side.
pub open spec fn removed_hunk(a: Seq<Seq<char>>) -> HunkView {
    HunkView {
        old_start: 1,
        old_count: a.len() as int,
        new_start: 0,
        new_count: 0,
        lines: Seq::new(
            a.len(),
            |k: int|
                LineView { kind: ChangeType::Delete, old_num: Some(k + 1), new_num: None, content: a[k] },
        ),
    }
}

/// `d` records the lines `b` of a file that only the new side has, at `path`.
pub open spec fn is_added_file(d: FileDiff, path: Seq<char>, b: Seq<Seq<char>>) -> bool {
    &&& d.path@ == path
    &&& d.old_path@ == absent_path()
    &&& d.new_path@ == path
    &&& !d.is_binary && d.is_new && !d.is_deleted
    &&& hunk_views(d.hunks@) == seq![added_hunk(b)]
    &&& d.full_content matches Some(fc) && line_views(fc@) == full_view(b)
}

/// `d` records the lines `a` of a file that only the old side has, at `path`.
pub open spec fn is_removed_file(d: FileDiff, path: Seq<char>, a: Seq<Seq<char>>) -> bool {
    &&& d.path@ == path
    &&& d.old_path@ == path
    &&& d.new_path@ == absent_path()
    &&& !d.is_binary && !d.is_new && d.is_deleted
    &&& hunk_views(d.hunks@) == seq![removed_hunk(a)]
    &&& d.full_content is None
}

/// `d` records that two files differ as binaries, with no hunks.
pub open spec fn is_binary_pair(d: FileDiff, old_p: Seq<char>, new_p: Seq<char>) -> bool {
    &&& d.path@ == old_p
    &&& d.old_path@ == old_p
    &&& d.new_path@ == new_p
    &&& d.is_binary && !d.is_new && !d.is_deleted
    &&& d.hunks@.len() == 0
    &&& d.full_content is None
}

/// `d` records the comparison of lines `a` with lines `b` under `opts`.
pub open spec fn is_text_pair(
    d: FileDiff,
    opts: DiffOptions,
    old_p: Seq<char>,
    new_p: Seq<char>,
    a: Seq<Seq<char>>,
    b: Seq<Seq<char>>,
) -> bool {
    &&& d.path@ == old_p
    &&& d.old_path@ == old_p
    &&& d.new_path@ == new_p
    &&& !d.is_binary && !d.is_new && !d.is_deleted
    &&& hunk_views(d.hunks@) == hunks_of(whole_script(opts, a, b), a, b, 0, 0)
    &&& is_script(whole_script(opts, a, b), keys_of(opts, a), keys_of(opts, b))
    &&& d.full_content matches Some(fc) && line_views(fc@) == full_view(b)
}

/// Every line of `lines`, kept and numbered from 1 on both sides.
pub fn full_lines(lines: &Vec<String>) -> (r: Vec<LineChange>)
    ensures
        line_views(r@) == full_view(string_views(lines@)),
{
    let mut out: Vec<LineChange> = Vec::new();
    let mut k: usize = 0;
    while k < lines.len()
        invariant
            k <= lines@.len(),
            line_views(out@) =~= full_view(string_views(lines@)).take(k as int),
        decreases lines@.len() - k,
    {
        let lc = LineChange {
            change_type: ChangeType::Context,
            old_line_num: Some(k + 1),
            new_line_num: Some(k + 1),
            content: lines[k].clone(),
        };
        proof {
            assert(line_views(out@.push(lc)) =~= line_views(out@).push(lc@));
        }
        out.push(lc);
        k = k + 1;
    }
    out
}

/// The record of a file that only the new side has.
pub fn added_file(path: &str, lines: &Vec<String>) -> (r: FileDiff)
    ensures
        is_added_file(r, path@, string_views(lines@)),
{
    let b = Ghost(string_views(lines@));
    let mut changes: Vec<LineChange> = Vec::new();
    let mut k: usize = 0;
    while k < lines.len()
        invariant
            k <= lines@.len(),
            b@ == string_views(lines@),
            line_views(changes@) =~= added_hunk(b@).lines.take(k as int),
        decreases lines@.len() - k,
    {
        let lc = LineChange {
            change_type: ChangeType::Add,
            old_line_num: None,
            new_line_num: Some(k + 1),
            content: lines[k].clone(),
        };
        proof {
            assert(line_views(changes@.push(lc)) =~= line_views(changes@).push(lc@));
        }
        changes.push(lc);
        k = k + 1;
    }
    assert(line_views(changes@) =~= added_hunk(b@).lines);
    let hunk = Hunk { old_start: 0, old_count: 0, new_start: 1, new_count: lines.len(), lines: changes };
    assert(hunk@ == added_hunk(b@));
    let mut hunks: Vec<Hunk> = Vec::new();
    hunks.push(hunk);
    assert(hunk_views(hunks@) =~= seq![added_hunk(b@)]);
    FileDiff {
        path: path.to_owned(),
        old_path: absent_marker(),
        new_path: path.to_owned(),
        is_binary: false,
        is_new: true,
        is_deleted: false,
        hunks,
        full_content: Some(full_lines(lines)),
    }
}

/// The record of a file that only the old side has.
pub fn removed_file(path: &str, lines: &Vec<String>) -> (r: FileDiff)
    ensures
        is_removed_file(r, path@, string_views(lines@)),
{
    let a = Ghost(string_views(lines@));
    let mut changes: Vec<LineChange> = Vec::new();
    let mut k: usize = 0;
    while k < lines.len()
        invariant
            k <= lines@.len(),
            a@ == string_views(lines@),
            line_views(changes@) =~= removed_hunk(a@).lines.take(k as int),
        decreases lines@.len() - k,
    {
        let lc = LineChange {
            change_type: ChangeType::Delete,
            old_line_num: Some(k + 1),
            new_line_num: None,
            content: lines[k].clone(),
        };
        proof {
            assert(line_views(changes@.push(lc)) =~= line_views(changes@).push(lc@));
        }
        changes.push(lc);
        k = k + 1;
    }
    assert(line_views(changes@) =~= removed_hunk(a@).lines);
    let hunk = Hunk { old_start: 1, old_count: lines.len(), new_start: 0, new_count: 0, lines: changes };
    assert(hunk@ == removed_hunk(a@));
    let mut hunks: Vec<Hunk> = Vec::new();
    hunks.push(hunk);
    assert(hunk_views(hunks@) =~= seq![removed_hunk(a@)]);
    FileDiff {
        path: path.to_owned(),
        old_path: path.to_owned(),
        new_path: absent_marker(),
        is_binary: false,
        is_new: false,
        is_deleted: true,
        hunks,
        full_content: None,
    }
}

/// The record of two files that differ as binaries.
pub fn binary_pair(path1: &str, path2: &str) -> (r: FileDiff)
    ensures
        is_binary_pair(r, path1@, path2@),
{
    FileDiff {
        path: path1.to_owned(),
        old_path: path1.to_owned(),
        new_path: path2.to_owned(),
        is_binary: true,
        is_new: false,
        is_deleted: false,
        hunks: Vec::new(),
        full_content: None,
    }
}

pub open spec fn opt_bytes(o: Option<&[u8]>) -> Option<Seq<u8>> {
    match o {
        Some(b) => Some(b@),
        None => None,
    }
}

/// Where both files exist, the length of each fits below `usize::MAX`.
pub open spec fn both_fit(old: Option<Seq<u8>>, new: Option<Seq<u8>>) -> bool {
    match (old, new) {
        (Some(a), Some(b)) => a.len() < usize::MAX && b.len() < usize::MAX,
        _ => true,
    }
}

/// What comparing the contents `old` with `new` (`None` where a file does not exist)
/// returns: both missing is an error; one missing gives an added or removed file; a
/// binary side gives a binary record; otherwise the texts are compared. A line that is
/// not valid UTF-8 is an encoding error.
pub open spec fn contents_outcome(
    r: Result<FileDiff, DiffError>,
    opts: DiffOptions,
    old: Option<Seq<u8>>,
    new: Option<Seq<u8>>,
    old_p: Seq<char>,
    new_p: Seq<char>,
) -> bool {
    match (old, new) {
        (None, None) => match r {
            Err(DiffError::FileNotFound(_)) => true,
            _ => false,
        },
        (None, Some(b)) => match r {
            Ok(d) => text_lines_valid(b) && is_added_file(d, new_p, decoded_text_lines(b)),
            Err(e) => !text_lines_valid(b) && e is EncodingError,
        },
        (Some(a), None) => match r {
            Ok(d) => text_lines_valid(a) && is_removed_file(d, old_p, decoded_text_lines(a)),
            Err(e) => !text_lines_valid(a) && e is EncodingError,
        },
        (Some(a), Some(b)) => if binary_bytes(a) || binary_bytes(b) {
            match r {
                Ok(d) => is_binary_pair(d, old_p, new_p),
                Err(_) => false,
            }
        } else {
            match r {
                Ok(d) => text_lines_valid(a) && text_lines_valid(b) && is_text_pair(
                    d,
                    opts,
                    old_p,
                    new_p,
                    decoded_text_lines(a),
                    decoded_text_lines(b),
                ),
                Err(e) => !(text_lines_valid(a) && text_lines_valid(b)) && e is EncodingError,
            }
        },
    }
}

/// The lines of a text are valid UTF-8.
pub proof fn text_is_valid(t: &str)
    ensures
        text_lines_valid(t.spec_bytes()),
{
    vstd::utf8::encode_utf8_valid_utf8(t@);
    lemma_text_lines_valid(t.spec_bytes());
}

/// Compares single files and texts.
pub struct FileDiffer {
    options: DiffOptions,
}

impl FileDiffer {
    /// The options that lines are compared under.
    pub closed spec fn options(&self) -> DiffOptions {
        self.options
    }

    pub fn new(options: DiffOptions) -> (r: Self)
        ensures
            r.options() == options,
    {
        FileDiffer { options }
    }

    /// The script that aligns `old` with `new`.
    pub fn script(&self, old: &Vec<String>, new: &Vec<String>) -> (r: Vec<EditTag>)
        ensures
            r@ == whole_script(self.options(), string_views(old@), string_views(new@)),
            is_script(r@, keys_of(self.options(), string_views(old@)), keys_of(self.options(), string_views(new@))),
    {
        let ko = line_keys(&self.options, old);
        let kn = line_keys(&self.options, new);
        script_for(ko.as_slice(), kn.as_slice())
    }

    /// Aligns `old` with `new`: every line of both, each kept, removed or added.
    pub fn align(&self, old: &Vec<String>, new: &Vec<String>) -> (r: Vec<LineChange>)
        requires
            old@.len() < usize::MAX,
            new@.len() < usize::MAX,
        ensures
            line_views(r@) == stream_of(
                whole_script(self.options(), string_views(old@), string_views(new@)),
                string_views(old@),
                string_views(new@),
                0,
                0,
            ),
            old_side(line_views(r@)) == string_views(old@),
            !self.options().ignore_case && !self.options().ignore_whitespace ==> new_side(line_views(r@))
                == string_views(new@),
    {
        let s = self.script(old, new);
        proof {
            let a = string_views(old@);
            let b = string_views(new@);
            lemma_stream_reconstructs(s@, a, b, keys_of(self.options(), a), keys_of(self.options(), b));
            if !self.options().ignore_case && !self.options().ignore_whitespace {
                lemma_plain_keys_faithful(self.options(), a, b);
            }
        }
        align_lines(&s, old, new, 0, 0)
    }

    /// The hunks that turn `old` into `new`.
    pub fn diff_lines(&self, old: &Vec<String>, new: &Vec<String>) -> (r: Vec<Hunk>)
        requires
            old@.len() < usize::MAX,
            new@.len() < usize::MAX,
        ensures
            hunk_views(r@) == hunks_of(
                whole_script(self.options(), string_views(old@), string_views(new@)),
                string_views(old@),
                string_views(new@),
                0,
                0,
            ),
            is_script(
                whole_script(self.options(), string_views(old@), string_views(new@)),
                keys_of(self.options(), string_views(old@)),
                keys_of(self.options(), string_views(new@)),
            ),
    {
        let s = self.script(old, new);
        group_hunks(&s, old, new, 0, 0)
    }

    /// Compares the lines of two texts.
    pub fn compare_lines(&self, old: &Vec<String>, new: &Vec<String>, old_path: &str, new_path: &str) -> (r:
        FileDiff)
        requires
            old@.len() < usize::MAX,
            new@.len() < usize::MAX,
        ensures
            is_text_pair(r, self.options(), old_path@, new_path@, string_views(old@), string_views(new@)),
    {
        let hunks = self.diff_lines(old, new);
        FileDiff {
            path: old_path.to_owned(),
            old_path: old_path.to_owned(),
            new_path: new_path.to_owned(),
            is_binary: false,
            is_new: false,
            is_deleted: false,
            hunks,
            full_content: Some(full_lines(new)),
        }
    }

    /// Compares two texts line by line.
    pub fn compare_text(&self, old_text: &str, new_text: &str, old_path: &str, new_path: &str) -> (r: FileDiff)
        requires
            old_text.spec_bytes().len() < usize::MAX,
            new_text.spec_bytes().len() < usize::MAX,
        ensures
            is_text_pair(
                r,
                self.options(),
                old_path@,
                new_path@,
                decoded_text_lines(old_text.spec_bytes()),
                decoded_text_lines(new_text.spec_bytes()),
            ),
    {
        proof {
            text_is_valid(old_text);
            text_is_valid(new_text);
        }
        match self.compare_bytes(old_text.as_bytes(), new_text.as_bytes(), old_path, new_path) {
            Ok(d) => d,
            Err(_) => binary_pair(old_path, new_path),
        }
    }

    /// Compares two texts given as bytes.
    pub fn compare_bytes(&self, old: &[u8], new: &[u8], old_path: &str, new_path: &str) -> (r:
        Result<FileDiff, DiffError>)
        requires
            old@.len() < usize::MAX,
            new@.len() < usize::MAX,
        ensures
            r is Ok <==> text_lines_valid(old@) && text_lines_valid(new@),
            r matches Err(e) ==> e is EncodingError,
            r matches Ok(d) ==> is_text_pair(
                d,
                self.options(),
                old_path@,
                new_path@,
                decoded_text_lines(old@),
                decoded_text_lines(new@),
            ),
    {
        let a = match text_lines(old) {
            Ok(v) => v,
            Err(e) => {
                return Err(e);
            },
        };
        let b = match text_lines(new) {
            Ok(v) => v,
            Err(e) => {
                return Err(e);
            },
        };
        Ok(self.compare_lines(&a, &b, old_path, new_path))
    }

    /// The record of a file that only the new side has, with text `content`.
    pub fn create_new_file_diff(&self, path: &str, content: &str) -> (r: FileDiff)
        ensures
            is_added_file(r, path@, decoded_text_lines(content.spec_bytes())),
    {
        proof {
            text_is_valid(content);
        }
        match text_lines(content.as_bytes()) {
            Ok(lines) => added_file(path, &lines),
            Err(_) => binary_pair(path, path),
        }
    }

    /// The record of a file that only the old side has, with text `content`.
    pub fn create_deleted_file_diff(&self, path: &str, content: &str) -> (r: FileDiff)
        ensures
            is_removed_file(r, path@, decoded_text_lines(content.spec_bytes())),
    {
        proof {
            text_is_valid(content);
        }
        match text_lines(content.as_bytes()) {
            Ok(lines) => removed_file(path, &lines),
            Err(_) => binary_pair(path, path),
        }
    }

    /// Compares two files given by their contents, `None` for a file that does not
    /// exist. One missing side gives an added or removed file; both missing is an
    /// error; a binary side gives a binary record; otherwise the texts are compared.
    pub fn compare_contents(
        &self,
        old: Option<&[u8]>,
        new: Option<&[u8]>,
        path1: &str,
        path2: &str,
    ) -> (r: Result<FileDiff, DiffError>)
        requires
            both_fit(opt_bytes(old), opt_bytes(new)),
        ensures
            contents_outcome(r, self.options(), opt_bytes(old), opt_bytes(new), path1@, path2@),
    {
        match (old, new) {
            (None, None) => Err(DiffError::FileNotFound(path1.to_owned())),
            (None, Some(b)) => match text_lines(b) {
                Ok(lines) => Ok(added_file(path2, &lines)),
                Err(e) => Err(e),
            },
            (Some(a), None) => match text_lines(a) {
                Ok(lines) => Ok(removed_file(path1, &lines)),
                Err(e) => Err(e),
            },
            (Some(a), Some(b)) => {
                if is_binary_content(a) || is_binary_content(b) {
                    Ok(binary_pair(path1, path2))
                } else {
                    self.compare_bytes(a, b, path1, path2)
                }
            },
        }
    }
}


/// Comparing lines with themselves finds no hunk, and the whole view of the new side
/// marks every line as kept.
pub proof fn lemma_self_comparison(d: FileDiff, opts: DiffOptions, old_p: Seq<char>, new_p: Seq<char>, a: Seq<Seq<char>>)
    requires
        is_text_pair(d, opts, old_p, new_p, a, a),
    ensures
        d.hunks@.len() == 0,
        d.full_content matches Some(fc) && forall|k: int|
            0 <= k < fc@.len() ==> (#[trigger] fc@[k]).change_type == ChangeType::Context,
{
    lemma_runs_all_equal(a.len() as int);
    assert(keys_of(opts, a).len() == a.len());
    assert(hunk_views(d.hunks@).len() == 0);
    let fc = d.full_content->0;
    assert forall|k: int| 0 <= k < fc@.len() implies (#[trigger] fc@[k]).change_type == ChangeType::Context by {
        assert(line_views(fc@).len() == fc@.len());
        assert(line_views(fc@)[k] == fc@[k]@);
        assert(line_views(fc@)[k] == full_view(a)[k]);
    }
}


/// Each line of each hunk of a comparison of lines `a` with lines `b` is a removed or an
/// added line. A removed line carries old line number `i + 1` and the text of old line
/// `i`; an added line carries new line number `j + 1` and the text of new line `j`.
pub proof fn lemma_text_pair_lines(
    d: FileDiff,
    opts: DiffOptions,
    old_p: Seq<char>,
    new_p: Seq<char>,
    a: Seq<Seq<char>>,
    b: Seq<Seq<char>>,
    h: int,
    t: int,
)
    requires
        is_text_pair(d, opts, old_p, new_p, a, b),
        0 <= h < d.hunks@.len(),
        0 <= t < d.hunks@[h].lines@.len(),
    ensures
        ({
            let l = d.hunks@[h].lines@[t]@;
            &&& l.kind == ChangeType::Delete || l.kind == ChangeType::Add
            &&& l.kind == ChangeType::Delete ==> l.new_num is None && (exists|i: int|
                0 <= i < a.len() && l.old_num == Some(i + 1) && l.content == #[trigger] a[i])
            &&& l.kind == ChangeType::Add ==> l.old_num is None && (exists|j: int|
                0 <= j < b.len() && l.new_num == Some(j + 1) && l.content == #[trigger] b[j])
        }),
{
    let s = whole_script(opts, a, b);
    let ka = keys_of(opts, a);
    let kb = keys_of(opts, b);
    assert(hunk_views(d.hunks@)[h] == d.hunks@[h]@);
    assert(line_views(d.hunks@[h].lines@)[t] == d.hunks@[h].lines@[t]@);
    lemma_hunk_line_origin(s, a, b, ka, kb, h, t);
    let k = runs(s)[h].0 + t;
    let i = old_used(s.take(k));
    let j = new_used(s.take(k));
    let l = d.hunks@[h].lines@[t]@;
    if l.kind == ChangeType::Delete {
        assert(l.content == a[i]);
    }
    if l.kind == ChangeType::Add {
        assert(l.content == b[j]);
    }
}


/// In a comparison of lines `a` with lines `b`, the old numbers of the removed lines, and
/// the new numbers of the added lines, grow strictly from one hunk line to any later
/// one, within a hunk and from hunk to hunk.
pub proof fn lemma_text_pair_order(
    d: FileDiff,
    opts: DiffOptions,
    old_p: Seq<char>,
    new_p: Seq<char>,
    a: Seq<Seq<char>>,
    b: Seq<Seq<char>>,
    h1: int,
    t1: int,
    h2: int,
    t2: int,
)
    requires
        is_text_pair(d, opts, old_p, new_p, a, b),
        0 <= h1 < d.hunks@.len(),
        0 <= t1 < d.hunks@[h1].lines@.len(),
        0 <= h2 < d.hunks@.len(),
        0 <= t2 < d.hunks@[h2].lines@.len(),
        h1 < h2 || (h1 == h2 && t1 < t2),
    ensures
        ({
            let l1 = d.hunks@[h1].lines@[t1]@;
            let l2 = d.hunks@[h2].lines@[t2]@;
            &&& l1.kind == ChangeType::Delete && l2.kind == ChangeType::Delete ==> l1.old_num->0
                < l2.old_num->0
            &&& l1.kind == ChangeType::Add && l2.kind == ChangeType::Add ==> l1.new_num->0 < l2.new_num->0
        }),
{
    let s = whole_script(opts, a, b);
    let ka = keys_of(opts, a);
    let kb = keys_of(opts, b);
    assert(hunk_views(d.hunks@)[h1] == d.hunks@[h1]@);
    assert(hunk_views(d.hunks@)[h2] == d.hunks@[h2]@);
    assert(line_views(d.hunks@[h1].lines@)[t1] == d.hunks@[h1].lines@[t1]@);
    assert(line_views(d.hunks@[h2].lines@)[t2] == d.hunks@[h2].lines@[t2]@);
    lemma_hunk_line_origin(s, a, b, ka, kb, h1, t1);
    lemma_hunk_line_origin(s, a, b, ka, kb, h2, t2);
    lemma_runs_are_changes(s);
    let r1 = runs(s)[h1];
    let r2 = runs(s)[h2];
    let k1 = r1.0 + t1;
    let k2 = r2.0 + t2;
    assert(hunks_of(s, a, b, 0, 0)[h1].lines.len() == r1.1 - r1.0);
    if h1 < h2 {
        assert(r1.1 < r2.0);
    }
    assert(k1 < k2);
    lemma_numbers_increase(s, k1, k2);
}

} // verus!
