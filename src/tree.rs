//! Comparison of two file trees, given the files that each holds.

use vstd::prelude::*;
use vstd::string::StringSliceAdditionalSpecFns;

use crate::file::{binary_bytes, contents_outcome, is_added_file, is_binary_pair, is_removed_file, lemma_self_comparison, FileDiffer};
use crate::line_index::decoded_text_lines;
use crate::results::{changed_files, file_lines, hunk_lines, is_summary, kind_count};
use crate::types::{hunk_views, ChangeType, DiffError, DiffOptions, DiffResult, FileDiff, LineView};

verus! {

/// A regular file of a tree: its path relative to the tree's root, its full path and
/// its contents.
pub struct TreeFile {
    pub rel_path: String,
    pub full_path: String,
    pub content: Vec<u8>,
}

/// Where one relative path stands in each tree: its index among the left files and
/// among the right files.
#[derive(Debug, Clone, Copy, PartialEq, Eq, Structural)]
pub struct PathPair {
    pub left: Option<usize>,
    pub right: Option<usize>,
}

/// A path whose comparison failed, with the reason.
pub struct PathFailure {
    pub path: String,
    pub error: DiffError,
}

/// The outcome of a tree comparison: the summed-up result, and the paths that failed.
pub struct TreeComparison {
    pub result: DiffResult,
    pub failures: Vec<PathFailure>,
}

pub open spec fn rel_paths(fs: Seq<TreeFile>) -> Seq<Seq<char>> {
    fs.map_values(|f: TreeFile| f.rel_path@)
}

/// The index of `p` in `ps`, if it occurs.
pub open spec fn index_of(ps: Seq<Seq<char>>, p: Seq<char>) -> Option<int>
    decreases ps.len(),
{
    if ps.len() == 0 {
        None
    } else if ps.last() == p {
        Some(ps.len() - 1)
    } else {
        index_of(ps.drop_last(), p)
    }
}

pub open spec fn opt_index(o: Option<usize>) -> Option<int> {
    match o {
        Some(i) => Some(i as int),
        None => None,
    }
}

/// The paths of `r` that `l` lacks, as pairs, in the order of `r`.
pub open spec fn right_only(l: Seq<Seq<char>>, r: Seq<Seq<char>>) -> Seq<(Option<int>, Option<int>)>
    decreases r.len(),
{
    if r.len() == 0 {
        seq![]
    } else if index_of(l, r.last()) is None {
        right_only(l, r.drop_last()).push((None, Some(r.len() - 1)))
    } else {
        right_only(l, r.drop_last())
    }
}

/// Every path of either tree once: the left paths in order, each with its place on the
/// right, then the paths that only the right has.
pub open spec fn pairing(l: Seq<Seq<char>>, r: Seq<Seq<char>>) -> Seq<(Option<int>, Option<int>)> {
    Seq::new(l.len(), |i: int| (Some(i), index_of(r, l[i]))) + right_only(l, r)
}

pub open spec fn pair_view(p: PathPair) -> (Option<int>, Option<int>) {
    (opt_index(p.left), opt_index(p.right))
}

/// Where `p` occurs in `fs`.
fn find(fs: &Vec<TreeFile>, p: &String) -> (r: Option<usize>)
    ensures
        opt_index(r) == index_of(rel_paths(fs@), p@),
{
    let ghost ps = rel_paths(fs@);
    let mut k: usize = fs.len();
    assert(ps.take(k as int) =~= ps);
    while k > 0
        invariant
            k <= fs@.len(),
            ps == rel_paths(fs@),
            index_of(ps, p@) == index_of(ps.take(k as int), p@),
        decreases k,
    {
        assert(ps.take(k as int).drop_last() =~= ps.take(k - 1));
        assert(ps.take(k as int).last() == fs@[k - 1].rel_path@);
        if fs[k - 1].rel_path == *p {
            return Some(k - 1);
        }
        k = k - 1;
    }
    None
}

/// Pairs up the relative paths of two trees.
pub fn pair_paths(left: &Vec<TreeFile>, right: &Vec<TreeFile>) -> (r: Vec<PathPair>)
    ensures
        r@.map_values(|p: PathPair| pair_view(p)) == pairing(rel_paths(left@), rel_paths(right@)),
{
    let ghost l = rel_paths(left@);
    let ghost rr = rel_paths(right@);
    let mut out: Vec<PathPair> = Vec::new();
    let mut i: usize = 0;
    while i < left.len()
        invariant
            i <= left@.len(),
            l == rel_paths(left@),
            rr == rel_paths(right@),
            out@.map_values(|p: PathPair| pair_view(p)) =~= pairing(l, rr).take(i as int),
        decreases left@.len() - i,
    {
        let j = find(right, &left[i].rel_path);
        let pp = PathPair { left: Some(i), right: j };
        assert(out@.push(pp).map_values(|p: PathPair| pair_view(p)) =~= out@.map_values(|p: PathPair| pair_view(p)).push(pair_view(pp)));
        out.push(pp);
        i = i + 1;
    }
    let mut j: usize = 0;
    while j < right.len()
        invariant
            j <= right@.len(),
            left@.len() <= out@.len(),
            l == rel_paths(left@),
            rr == rel_paths(right@),
            out@.map_values(|p: PathPair| pair_view(p)) =~= pairing(l, rr).take(left@.len() as int) + right_only(l, rr.take(j as int)),
        decreases right@.len() - j,
    {
        assert(rr.take(j + 1).drop_last() =~= rr.take(j as int));
        assert(rr.take(j + 1).last() == rr[j as int]);
        let found = find(left, &right[j].rel_path);
        if found.is_none() {
            let pp = PathPair { left: None, right: Some(j) };
            assert(out@.push(pp).map_values(|p: PathPair| pair_view(p)) =~= out@.map_values(|p: PathPair| pair_view(p)).push(pair_view(pp)));
            out.push(pp);
        }
        j = j + 1;
    }
    assert(rr.take(right@.len() as int) =~= rr);
    assert(pairing(l, rr).take(left@.len() as int) + right_only(l, rr) =~= pairing(l, rr));
    out
}

/// What comparing the entry `p` of two trees returns: a file on both sides is
/// compared by its full paths; a file on one side is added or removed under its
/// relative path.
pub open spec fn entry_outcome(
    o: Result<FileDiff, DiffError>,
    opts: DiffOptions,
    left: Seq<TreeFile>,
    right: Seq<TreeFile>,
    p: (Option<int>, Option<int>),
) -> bool {
    match p {
        (Some(i), Some(j)) => contents_outcome(
            o,
            opts,
            Some(left[i].content@),
            Some(right[j].content@),
            left[i].full_path@,
            right[j].full_path@,
        ),
        (Some(i), None) => contents_outcome(o, opts, Some(left[i].content@), None, left[i].rel_path@, left[i].rel_path@),
        (None, Some(j)) => contents_outcome(o, opts, None, Some(right[j].content@), right[j].rel_path@, right[j].rel_path@),
        (None, None) => contents_outcome(o, opts, None, None, seq![], seq![]),
    }
}

/// The relative path of entry `p`.
pub open spec fn entry_path(left: Seq<TreeFile>, right: Seq<TreeFile>, p: (Option<int>, Option<int>)) -> Seq<char> {
    match p {
        (Some(i), _) => left[i].rel_path@,
        (None, Some(j)) => right[j].rel_path@,
        (None, None) => seq![],
    }
}

/// The records of the entries that were compared.
pub open spec fn compared(outs: Seq<Result<FileDiff, DiffError>>) -> Seq<FileDiff>
    decreases outs.len(),
{
    if outs.len() == 0 {
        seq![]
    } else {
        match outs.last() {
            Ok(d) => compared(outs.drop_last()).push(d),
            Err(_) => compared(outs.drop_last()),
        }
    }
}

/// The entries whose comparison failed, by relative path, with the reason.
pub open spec fn failed(
    outs: Seq<Result<FileDiff, DiffError>>,
    paths: Seq<Seq<char>>,
) -> Seq<(Seq<char>, DiffError)>
    decreases outs.len(),
{
    if outs.len() == 0 {
        seq![]
    } else {
        match outs.last() {
            Ok(_) => failed(outs.drop_last(), paths),
            Err(e) => failed(outs.drop_last(), paths).push((paths[outs.len() - 1], e)),
        }
    }
}

pub open spec fn failure_views(fs: Seq<PathFailure>) -> Seq<(Seq<char>, DiffError)> {
    fs.map_values(|f: PathFailure| (f.path@, f.error))
}

/// Compares two trees.
pub struct DirectoryDiffer {
    file_differ: FileDiffer,
}

impl DirectoryDiffer {
    /// The options that lines are compared under.
    pub closed spec fn options(&self) -> DiffOptions {
        self.file_differ.options()
    }

    pub fn new(options: DiffOptions) -> (r: Self)
        ensures
            r.options() == options,
    {
        DirectoryDiffer { file_differ: FileDiffer::new(options) }
    }

    /// The record of a file that only the right tree has.
    pub fn create_new_diff(&self, rel_path: &str, content: &str) -> (r: FileDiff)
        ensures
            is_added_file(r, rel_path@, decoded_text_lines(content.spec_bytes())),
    {
        self.file_differ.create_new_file_diff(rel_path, content)
    }

    /// The record of a file that only the left tree has.
    pub fn create_deleted_diff(&self, rel_path: &str, content: &str) -> (r: FileDiff)
        ensures
            is_removed_file(r, rel_path@, decoded_text_lines(content.spec_bytes())),
    {
        self.file_differ.create_deleted_file_diff(rel_path, content)
    }

    /// Compares entry `p` of two trees.
    pub fn compare_entry(&self, left: &Vec<TreeFile>, right: &Vec<TreeFile>, p: PathPair) -> (r: Result<
        FileDiff,
        DiffError,
    >)
        requires
            p.left matches Some(i) ==> i < left@.len(),
            p.right matches Some(j) ==> j < right@.len(),
            contents_fit(left@),
            contents_fit(right@),
        ensures
            entry_outcome(r, self.options(), left@, right@, pair_view(p)),
    {
        match (p.left, p.right) {
            (Some(i), Some(j)) => {
                let a = &left[i];
                let b = &right[j];
                self.file_differ.compare_contents(
                    Some(a.content.as_slice()),
                    Some(b.content.as_slice()),
                    a.full_path.as_str(),
                    b.full_path.as_str(),
                )
            },
            (Some(i), None) => {
                let a = &left[i];
                self.file_differ.compare_contents(
                    Some(a.content.as_slice()),
                    None,
                    a.rel_path.as_str(),
                    a.rel_path.as_str(),
                )
            },
            (None, Some(j)) => {
                let b = &right[j];
                self.file_differ.compare_contents(
                    None,
                    Some(b.content.as_slice()),
                    b.rel_path.as_str(),
                    b.rel_path.as_str(),
                )
            },
            (None, None) => {
                proof {
                    reveal_strlit("");
                }
                self.file_differ.compare_contents(None, None, "", "")
            },
        }
    }

    /// Compares two trees: every relative path of either is compared once, files with
    /// hunks are kept and counted, and the paths whose comparison failed are listed.
    /// `None` where a total does not fit in `usize`.
    pub fn compare_trees(&self, left: &Vec<TreeFile>, right: &Vec<TreeFile>) -> (r: Option<TreeComparison>)
        requires
            contents_fit(left@),
            contents_fit(right@),
        ensures
            exists|outs: Seq<Result<FileDiff, DiffError>>|
                #[trigger] tree_outcomes(outs, self.options(), left@, right@) && tree_summary(
                    r,
                    outs,
                    left@,
                    right@,
                ),
    {
        let pairs = pair_paths(left, right);
        let ghost pv = pairs@.map_values(|p: PathPair| pair_view(p));
        let ghost paths = pv.map_values(|p: (Option<int>, Option<int>)| entry_path(left@, right@, p));
        let ghost mut outs: Seq<Result<FileDiff, DiffError>> = seq![];
        let mut files: Vec<FileDiff> = Vec::new();
        let mut failures: Vec<PathFailure> = Vec::new();
        let mut k: usize = 0;
        proof {
            lemma_pairing_bounds(rel_paths(left@), rel_paths(right@));
        }
        while k < pairs.len()
            invariant
                k <= pairs@.len(),
                pv == pairs@.map_values(|p: PathPair| pair_view(p)),
                pv == pairing(rel_paths(left@), rel_paths(right@)),
                paths == pv.map_values(|p: (Option<int>, Option<int>)| entry_path(left@, right@, p)),
                forall|m: int| 0 <= m < pv.len() ==> in_range((#[trigger] pv[m]).0, left@.len() as int),
                forall|m: int| 0 <= m < pv.len() ==> in_range((#[trigger] pv[m]).1, right@.len() as int),
                contents_fit(left@),
                contents_fit(right@),
                outs.len() == k,
                forall|m: int|
                    0 <= m < k ==> entry_outcome(#[trigger] outs[m], self.options(), left@, right@, pv[m]),
                files@ == compared(outs),
                failure_views(failures@) == failed(outs, paths),
            decreases pairs@.len() - k,
        {
            let p = pairs[k];
            assert(pv[k as int] == pair_view(p));
            let o = self.compare_entry(left, right, p);
            let ghost prev = outs;
            proof {
                outs = outs.push(o);
                assert(outs.drop_last() =~= prev);
            }
            match o {
                Ok(d) => {
                    files.push(d);
                },
                Err(e) => {
                    let path = match p.left {
                        Some(i) => left[i].rel_path.clone(),
                        None => match p.right {
                            Some(j) => right[j].rel_path.clone(),
                            None => String::new(),
                        },
                    };
                    proof {
                        assert(path@ == paths[k as int]);
                    }
                    let ghost fprev = failures@;
                    failures.push(PathFailure { path, error: e });
                    assert(failure_views(failures@) =~= failure_views(fprev).push((paths[k as int], e)));
                },
            }
            k = k + 1;
        }
        assert(tree_outcomes(outs, self.options(), left@, right@));
        match DiffResult::from_files(files) {
            Some(result) => Some(TreeComparison { result, failures }),
            None => None,
        }
    }
}

/// Whether an index, if any, is below `n`.
pub open spec fn in_range(o: Option<int>, n: int) -> bool {
    match o {
        Some(i) => 0 <= i < n,
        None => true,
    }
}

/// Every file's contents has a length below `usize::MAX`.
pub open spec fn contents_fit(fs: Seq<TreeFile>) -> bool {
    forall|i: int| 0 <= i < fs.len() ==> (#[trigger] fs[i]).content@.len() < usize::MAX
}

/// `outs` holds, entry by entry, an outcome of comparing the paired paths of `left`
/// and `right`.
pub open spec fn tree_outcomes(
    outs: Seq<Result<FileDiff, DiffError>>,
    opts: DiffOptions,
    left: Seq<TreeFile>,
    right: Seq<TreeFile>,
) -> bool {
    let pv = pairing(rel_paths(left), rel_paths(right));
    &&& outs.len() == pv.len()
    &&& forall|m: int| 0 <= m < outs.len() ==> entry_outcome(#[trigger] outs[m], opts, left, right, pv[m])
}

/// `r` sums up the entry outcomes `outs`: the compared files are summed up, and the
/// failed entries are listed by relative path; `None` exactly where a total does not
/// fit in `usize`.
pub open spec fn tree_summary(
    r: Option<TreeComparison>,
    outs: Seq<Result<FileDiff, DiffError>>,
    left: Seq<TreeFile>,
    right: Seq<TreeFile>,
) -> bool {
    let pv = pairing(rel_paths(left), rel_paths(right));
    let paths = pv.map_values(|p: (Option<int>, Option<int>)| entry_path(left, right, p));
    let fs = compared(outs);
    &&& (r is Some <==> crate::results::kind_count(crate::results::file_lines(fs), crate::types::ChangeType::Add)
        <= usize::MAX && crate::results::kind_count(
        crate::results::file_lines(fs),
        crate::types::ChangeType::Delete,
    ) <= usize::MAX)
    &&& r matches Some(t) ==> is_summary(t.result, fs) && failure_views(t.failures@) == failed(outs, paths)
}

proof fn lemma_index_of_range(ps: Seq<Seq<char>>, p: Seq<char>)
    ensures
        index_of(ps, p) matches Some(i) ==> 0 <= i < ps.len() && ps[i] == p,
        index_of(ps, p) is None ==> forall|i: int| 0 <= i < ps.len() ==> ps[i] != p,
    decreases ps.len(),
{
    if ps.len() > 0 {
        lemma_index_of_range(ps.drop_last(), p);
        assert forall|i: int| 0 <= i < ps.len() - 1 implies ps.drop_last()[i] == ps[i] by {}
    }
}

proof fn lemma_right_only_bounds(l: Seq<Seq<char>>, r: Seq<Seq<char>>)
    ensures
        forall|m: int|
            0 <= m < right_only(l, r).len() ==> (#[trigger] right_only(l, r)[m]).0 is None && (
            right_only(l, r)[m].1 matches Some(j) && 0 <= j < r.len()),
    decreases r.len(),
{
    if r.len() > 0 {
        lemma_right_only_bounds(l, r.drop_last());
    }
}

/// Every index that a pairing holds is within its tree.
pub proof fn lemma_pairing_bounds(l: Seq<Seq<char>>, r: Seq<Seq<char>>)
    ensures
        forall|m: int| 0 <= m < pairing(l, r).len() ==> in_range((#[trigger] pairing(l, r)[m]).0, l.len() as int),
        forall|m: int| 0 <= m < pairing(l, r).len() ==> in_range((#[trigger] pairing(l, r)[m]).1, r.len() as int),
{
    lemma_right_only_bounds(l, r);
    assert forall|i: int| 0 <= i < l.len() implies in_range(index_of(r, #[trigger] l[i]), r.len() as int) by {
        lemma_index_of_range(r, l[i]);
    }
}


/// Whether no relative path occurs twice among `fs`.
pub open spec fn unique_paths(fs: Seq<TreeFile>) -> bool {
    forall|i: int, j: int| 0 <= i < j < fs.len() ==> fs[i].rel_path@ != fs[j].rel_path@
}

proof fn lemma_index_of_unique(ps: Seq<Seq<char>>, i: int)
    requires
        0 <= i < ps.len(),
        forall|x: int, y: int| 0 <= x < y < ps.len() ==> ps[x] != ps[y],
    ensures
        index_of(ps, ps[i]) == Some(i),
    decreases ps.len(),
{
    if ps.last() != ps[i] {
        assert(i < ps.len() - 1);
        let q = ps.drop_last();
        assert(q[i] == ps[i]);
        lemma_index_of_unique(q, i);
    }
}

proof fn lemma_right_only_none(l: Seq<Seq<char>>, r: Seq<Seq<char>>)
    requires
        forall|j: int| 0 <= j < r.len() ==> index_of(l, #[trigger] r[j]) is Some,
    ensures
        right_only(l, r).len() == 0,
    decreases r.len(),
{
    if r.len() > 0 {
        assert(r.last() == r[r.len() - 1]);
        let q = r.drop_last();
        assert forall|j: int| 0 <= j < q.len() implies index_of(l, #[trigger] q[j]) is Some by {
            assert(q[j] == r[j]);
        }
        lemma_right_only_none(l, q);
    }
}

proof fn lemma_no_hunks_summed(outs: Seq<Result<FileDiff, DiffError>>)
    requires
        forall|m: int| 0 <= m < outs.len() ==> (#[trigger] outs[m] matches Ok(d) ==> d.hunks@.len() == 0),
    ensures
        changed_files(compared(outs)).len() == 0,
        file_lines(compared(outs)).len() == 0,
    decreases outs.len(),
{
    if outs.len() > 0 {
        let q = outs.drop_last();
        assert forall|m: int| 0 <= m < q.len() implies (#[trigger] q[m] matches Ok(d) ==> d.hunks@.len() == 0) by {
            assert(q[m] == outs[m]);
        }
        lemma_no_hunks_summed(q);
        assert(outs.last() == outs[outs.len() - 1]);
        match outs.last() {
            Ok(d) => {
                let c = compared(outs);
                assert(c == compared(q).push(d));
                assert(c.drop_last() =~= compared(q));
                assert(hunk_views(d.hunks@) =~= Seq::<crate::types::HunkView>::empty());
                assert(hunk_lines(hunk_views(d.hunks@)) == Seq::<LineView>::empty());
            },
            Err(_) => {},
        }
    }
}

/// Comparing a tree with itself lists no file and counts no line.
pub proof fn lemma_same_trees_unchanged(
    opts: DiffOptions,
    tree: Seq<TreeFile>,
    outs: Seq<Result<FileDiff, DiffError>>,
    r: Option<TreeComparison>,
)
    requires
        unique_paths(tree),
        tree_outcomes(outs, opts, tree, tree),
        tree_summary(r, outs, tree, tree),
    ensures
        r matches Some(t) && t.result.files@.len() == 0 && t.result.total_files_changed == 0
            && t.result.total_additions == 0 && t.result.total_deletions == 0,
{
    let l = rel_paths(tree);
    assert forall|x: int, y: int| 0 <= x < y < l.len() implies l[x] != l[y] by {
        assert(l[x] == tree[x].rel_path@ && l[y] == tree[y].rel_path@);
    }
    assert forall|j: int| 0 <= j < l.len() implies index_of(l, #[trigger] l[j]) is Some by {
        lemma_index_of_unique(l, j);
    }
    lemma_right_only_none(l, l);
    let pv = pairing(l, l);
    assert(pv.len() == tree.len());
    assert forall|m: int| 0 <= m < outs.len() implies (#[trigger] outs[m] matches Ok(d) ==> d.hunks@.len() == 0) by {
        lemma_index_of_unique(l, m);
        assert(pv[m] == (Some(m), Some(m)));
        assert(entry_outcome(outs[m], opts, tree, tree, pv[m]));
        let c = tree[m].content@;
        let fp = tree[m].full_path@;
        if let Ok(d) = outs[m] {
            if !binary_bytes(c) {
                lemma_self_comparison(d, opts, fp, fp, crate::line_index::decoded_text_lines(c));
            }
        }
    }
    lemma_no_hunks_summed(outs);
    let fs = compared(outs);
    assert(kind_count(file_lines(fs), ChangeType::Add) == 0);
    assert(kind_count(file_lines(fs), ChangeType::Delete) == 0);
}


proof fn lemma_kept_file(outs: Seq<Result<FileDiff, DiffError>>, m: int, d: FileDiff)
    requires
        0 <= m < outs.len(),
        outs[m] == Ok::<FileDiff, DiffError>(d),
        d.hunks@.len() > 0,
    ensures
        changed_files(compared(outs)).contains(d),
    decreases outs.len(),
{
    let q = outs.drop_last();
    let c = compared(outs);
    if m == outs.len() - 1 {
        assert(outs.last() == outs[m]);
        assert(c == compared(q).push(d));
        assert(c.drop_last() =~= compared(q));
        assert(c.last() == d);
        let k = changed_files(c);
        assert(k == changed_files(compared(q)).push(d));
        assert(k[k.len() - 1] == d);
    } else {
        assert(q[m] == outs[m]);
        lemma_kept_file(q, m, d);
        let w = changed_files(compared(q));
        let i = choose|i: int| 0 <= i < w.len() && w[i] == d;
        match outs.last() {
            Ok(e) => {
                assert(c == compared(q).push(e));
                assert(c.drop_last() =~= compared(q));
                assert(c.last() == e);
                let k = changed_files(c);
                if e.hunks@.len() > 0 {
                    assert(k == w.push(e));
                    assert(k[i] == d);
                } else {
                    assert(k == w);
                }
            },
            Err(_) => {
                assert(c == compared(q));
            },
        }
    }
}

/// A file that only the left tree has, at relative path `p`, is compared as a removed
/// file under `p` against the absent-file marker, with every line removed, and is among
/// the result's files; a pair of files of which either is binary gives a binary record
/// with no hunk, which adds no line to the totals.
pub proof fn lemma_tree_entry(
    opts: DiffOptions,
    left: Seq<TreeFile>,
    right: Seq<TreeFile>,
    outs: Seq<Result<FileDiff, DiffError>>,
    r: Option<TreeComparison>,
    i: int,
)
    requires
        tree_outcomes(outs, opts, left, right),
        tree_summary(r, outs, left, right),
        0 <= i < left.len(),
    ensures
        ({
            let found = index_of(rel_paths(right), left[i].rel_path@);
            let c = left[i].content@;
            &&& found is None && crate::line_index::text_lines_valid(c) ==> (outs[i] matches Ok(d)
                && is_removed_file(d, left[i].rel_path@, decoded_text_lines(c)) && (r matches Some(t)
                ==> t.result.files@.contains(d)))
            &&& match found {
                Some(j) => (binary_bytes(c) || binary_bytes(right[j].content@)) ==> (outs[i] matches Ok(d)
                    && is_binary_pair(d, left[i].full_path@, right[j].full_path@) && hunk_lines(
                    hunk_views(d.hunks@),
                ).len() == 0),
                None => true,
            }
        }),
{
    let l = rel_paths(left);
    let pv = pairing(l, rel_paths(right));
    assert(pv[i] == (Some(i), index_of(rel_paths(right), l[i])));
    assert(l[i] == left[i].rel_path@);
    assert(entry_outcome(outs[i], opts, left, right, pv[i]));
    if let Ok(d) = outs[i] {
        if d.hunks@.len() == 0 {
            assert(hunk_views(d.hunks@) =~= Seq::<crate::types::HunkView>::empty());
            assert(hunk_lines(hunk_views(d.hunks@)) == Seq::<LineView>::empty());
        }
        if index_of(rel_paths(right), l[i]) is None && d.hunks@.len() > 0 {
            lemma_kept_file(outs, i, d);
        }
        if index_of(rel_paths(right), l[i]) is None {
            assert(hunk_views(d.hunks@).len() == 1 ==> d.hunks@.len() == 1);
        }
    }
}

} // verus!
