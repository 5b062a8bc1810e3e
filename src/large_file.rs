//! Comparison of large files in fixed-size windows, one after another or in parallel,
//! and the choice between whole-file, windowed and parallel comparison.

use rayon::iter::{IntoParallelRefIterator, ParallelIterator};
use vstd::prelude::*;
use vstd::slice::slice_subrange;

use crate::align::{aligned_script, all_equal, lemma_runs_all_equal, runs, old_used, new_used, byte_views, group_hunks, hunks_of, keys_of, line_keys, same_bytes, script_for, EditTag};
use crate::file::{binary_bytes, binary_pair, full_lines, full_view, is_binary_content, is_binary_pair, is_text_pair, FileDiffer};
use crate::line_index::{decoded_text_lines, string_views, text_lines, text_lines_valid, MmapFile};
use crate::types::{DiffError, DiffOptions, FileDiff, Hunk, HunkView, hunk_views};

verus! {

/// The default number of lines a window spans.
pub const DEFAULT_CHUNK_SIZE: usize = 10000;

/// The default farthest distance, in lines, that a window end is pushed to resynchronize.
pub const DEFAULT_MAX_PROBE: usize = 64;

/// `s + w`, capped at `n`.
pub open spec fn clip(s: int, w: int, n: int) -> int {
    if s + w < n {
        s + w
    } else {
        n
    }
}

/// The first window end, at distance `d` or more up to `max`, that pairs equal lines:
/// at each distance the old side is pushed first, then the new side.
pub open spec fn probe_end(
    ko: Seq<Seq<u8>>,
    kn: Seq<Seq<u8>>,
    e1: int,
    e2: int,
    d: int,
    max: int,
) -> Option<(int, int)>
    decreases max + 1 - d,
{
    if d < 1 || d > max {
        None
    } else if e1 + d <= ko.len() && 1 <= e2 <= kn.len() && ko[e1 + d - 1] == kn[e2 - 1] {
        Some((e1 + d, e2))
    } else if e2 + d <= kn.len() && 1 <= e1 <= ko.len() && kn[e2 + d - 1] == ko[e1 - 1] {
        Some((e1, e2 + d))
    } else {
        probe_end(ko, kn, e1, e2, d + 1, max)
    }
}

/// The script of the window `s1..e1` of `ko` against `s2..e2` of `kn`.
pub open spec fn window_script(ko: Seq<Seq<u8>>, kn: Seq<Seq<u8>>, s1: int, e1: int, s2: int, e2: int) -> Seq<
    EditTag,
> {
    aligned_script(ko.subrange(s1, e1), kn.subrange(s2, e2))
}

/// Whether the window `s1..e1` against `s2..e2` ends in the middle of a change that
/// the rest of the files might still close.
pub open spec fn ends_mid_change(ko: Seq<Seq<u8>>, kn: Seq<Seq<u8>>, s1: int, e1: int, s2: int, e2: int) -> bool {
    let sc = window_script(ko, kn, s1, e1, s2, e2);
    (e1 < ko.len() || e2 < kn.len()) && sc.len() > 0 && sc.last() != EditTag::Equal
}

/// Where the window that starts at `s1`, `s2` ends: `w` lines on, or, where that
/// ends mid-change, pushed to the first end within `max` lines that pairs equal lines.
pub open spec fn window_end(ko: Seq<Seq<u8>>, kn: Seq<Seq<u8>>, s1: int, s2: int, w: int, max: int) -> (int, int) {
    let e1 = clip(s1, w, ko.len() as int);
    let e2 = clip(s2, w, kn.len() as int);
    if ends_mid_change(ko, kn, s1, e1, s2, e2) {
        match probe_end(ko, kn, e1, e2, 1, max) {
            Some(p) => p,
            None => (e1, e2),
        }
    } else {
        (e1, e2)
    }
}

/// The hunks of the windowed comparison from `s1`, `s2` on: each window is aligned on
/// its own, numbered by its place in the files, and the results follow window order.
pub open spec fn chunked_hunks(
    ko: Seq<Seq<u8>>,
    kn: Seq<Seq<u8>>,
    co: Seq<Seq<char>>,
    cn: Seq<Seq<char>>,
    s1: int,
    s2: int,
    w: int,
    max: int,
) -> Seq<HunkView>
    decreases (ko.len() - s1) + (kn.len() - s2),
{
    if w <= 0 || s1 < 0 || s2 < 0 || s1 > ko.len() || s2 > kn.len() || (s1 == ko.len() && s2
        == kn.len()) {
        seq![]
    } else {
        let (e1, e2) = window_end(ko, kn, s1, s2, w, max);
        let head = hunks_of(window_script(ko, kn, s1, e1, s2, e2), co, cn, s1, s2);
        if s1 <= e1 <= ko.len() && s2 <= e2 <= kn.len() && s1 + s2 < e1 + e2 {
            head + chunked_hunks(ko, kn, co, cn, e1, e2, w, max)
        } else {
            head
        }
    }
}

proof fn lemma_probe_range(ko: Seq<Seq<u8>>, kn: Seq<Seq<u8>>, e1: int, e2: int, d: int, max: int)
    requires
        0 <= e1 <= ko.len(),
        0 <= e2 <= kn.len(),
    ensures
        probe_end(ko, kn, e1, e2, d, max) matches Some(p) ==> e1 <= p.0 <= ko.len() && e2 <= p.1
            <= kn.len() && e1 + e2 < p.0 + p.1,
    decreases max + 1 - d,
{
    if d >= 1 && d <= max {
        lemma_probe_range(ko, kn, e1, e2, d + 1, max);
    }
}

/// A window ends past its start and within the files.
pub proof fn lemma_window_end_range(ko: Seq<Seq<u8>>, kn: Seq<Seq<u8>>, s1: int, s2: int, w: int, max: int)
    requires
        w > 0,
        0 <= s1 <= ko.len(),
        0 <= s2 <= kn.len(),
        !(s1 == ko.len() && s2 == kn.len()),
    ensures
        ({
            let (e1, e2) = window_end(ko, kn, s1, s2, w, max);
            s1 <= e1 <= ko.len() && s2 <= e2 <= kn.len() && s1 + s2 < e1 + e2
        }),
{
    let e1 = clip(s1, w, ko.len() as int);
    let e2 = clip(s2, w, kn.len() as int);
    lemma_probe_range(ko, kn, e1, e2, 1, max);
}

/// Looks for the first window end within `max` lines that pairs equal lines.
fn probe(ko: &Vec<Vec<u8>>, kn: &Vec<Vec<u8>>, e1: usize, e2: usize, max: usize) -> (r: Option<(usize, usize)>)
    requires
        e1 <= ko@.len(),
        e2 <= kn@.len(),
    ensures
        match r {
            Some(p) => probe_end(byte_views(ko@), byte_views(kn@), e1 as int, e2 as int, 1, max as int)
                == Some((p.0 as int, p.1 as int)),
            None => probe_end(byte_views(ko@), byte_views(kn@), e1 as int, e2 as int, 1, max as int)
                is None,
        },
{
    let ghost vo = byte_views(ko@);
    let ghost vn = byte_views(kn@);
    let n1 = ko.len();
    let n2 = kn.len();
    let mut d: usize = 1;
    while d <= max
        invariant
            1 <= d,
            e1 <= n1,
            e2 <= n2,
            n1 == ko@.len(),
            n2 == kn@.len(),
            vo == byte_views(ko@),
            vn == byte_views(kn@),
            probe_end(vo, vn, e1 as int, e2 as int, 1, max as int) == probe_end(
                vo,
                vn,
                e1 as int,
                e2 as int,
                d as int,
                max as int,
            ),
        decreases max + 1 - d,
    {
        if d <= n1 - e1 && 1 <= e2 && same_bytes(&ko[e1 + d - 1], &kn[e2 - 1]) {
            return Some((e1 + d, e2));
        }
        if d <= n2 - e2 && 1 <= e1 && same_bytes(&kn[e2 + d - 1], &ko[e1 - 1]) {
            return Some((e1, e2 + d));
        }
        if d == usize::MAX {
            assert(probe_end(vo, vn, e1 as int, e2 as int, d + 1, max as int) is None);
            return None;
        }
        d = d + 1;
    }
    None
}

/// The script of one window.
fn window(ko: &Vec<Vec<u8>>, kn: &Vec<Vec<u8>>, s1: usize, e1: usize, s2: usize, e2: usize) -> (r: Vec<
    EditTag,
>)
    requires
        s1 <= e1 <= ko@.len(),
        s2 <= e2 <= kn@.len(),
    ensures
        r@ == window_script(byte_views(ko@), byte_views(kn@), s1 as int, e1 as int, s2 as int, e2 as int),
        old_used(r@) == e1 - s1,
        new_used(r@) == e2 - s2,
{
    let a = slice_subrange(ko.as_slice(), s1, e1);
    let b = slice_subrange(kn.as_slice(), s2, e2);
    assert(byte_views(a@) =~= byte_views(ko@).subrange(s1 as int, e1 as int));
    assert(byte_views(b@) =~= byte_views(kn@).subrange(s2 as int, e2 as int));
    script_for(a, b)
}


/// `d` records a comparison of the files at `old_p` and `new_p` with hunks `hs`, the new
/// file's lines `b` shown whole.
pub open spec fn is_large_pair(d: FileDiff, old_p: Seq<char>, new_p: Seq<char>, hs: Seq<HunkView>, b: Seq<Seq<char>>) -> bool {
    &&& d.path@ == old_p
    &&& d.old_path@ == old_p
    &&& d.new_path@ == new_p
    &&& !d.is_binary && !d.is_new && !d.is_deleted
    &&& hunk_views(d.hunks@) == hs
    &&& d.full_content matches Some(fc) && crate::types::line_views(fc@) == full_view(b)
}

/// Reads every line of both files as text, or fails with an encoding error.
fn read_both(file1: &MmapFile, file2: &MmapFile) -> (r: Result<(Vec<String>, Vec<String>), DiffError>)
    requires
        file1.bytes().len() < usize::MAX,
        file2.bytes().len() < usize::MAX,
    ensures
        r is Ok <==> text_lines_valid(file1.bytes()) && text_lines_valid(file2.bytes()),
        r matches Err(e) ==> e is EncodingError,
        r matches Ok(p) ==> string_views(p.0@) == decoded_text_lines(file1.bytes()) && string_views(p.1@)
            == decoded_text_lines(file2.bytes()) && p.0@.len() < usize::MAX && p.1@.len() < usize::MAX,
{
    let a = match text_lines(file1.as_bytes()) {
        Ok(v) => v,
        Err(e) => {
            return Err(e);
        },
    };
    let b = match text_lines(file2.as_bytes()) {
        Ok(v) => v,
        Err(e) => {
            return Err(e);
        },
    };
    Ok((a, b))
}

/// Compares large files window by window, in order, pushing a window's end forward
/// where it falls in the middle of a change.
pub struct ChunkedDiffer {
    chunk_size: usize,
    max_probe: usize,
    options: DiffOptions,
    show_progress: bool,
}

impl ChunkedDiffer {
    /// The number of lines a window spans.
    pub closed spec fn chunk_size(&self) -> int {
        self.chunk_size as int
    }

    /// The farthest distance that a window end is pushed.
    pub closed spec fn max_probe(&self) -> int {
        self.max_probe as int
    }

    /// The options that lines are compared under.
    pub closed spec fn options(&self) -> DiffOptions {
        self.options
    }

    /// Whether progress is to be reported.
    pub closed spec fn shows_progress(&self) -> bool {
        self.show_progress
    }

    pub fn new(chunk_size: usize, options: DiffOptions) -> (r: Self)
        ensures
            r.chunk_size() == chunk_size,
            r.max_probe() == DEFAULT_MAX_PROBE,
            r.options() == options,
            !r.shows_progress(),
    {
        ChunkedDiffer { chunk_size, max_probe: DEFAULT_MAX_PROBE, options, show_progress: false }
    }

    pub fn with_progress(chunk_size: usize, options: DiffOptions, show_progress: bool) -> (r: Self)
        ensures
            r.chunk_size() == chunk_size,
            r.max_probe() == DEFAULT_MAX_PROBE,
            r.options() == options,
            r.shows_progress() == show_progress,
    {
        ChunkedDiffer { chunk_size, max_probe: DEFAULT_MAX_PROBE, options, show_progress }
    }

    /// The end of the window that starts at `s1`, `s2`, with its script.
    fn next_window(&self, ko: &Vec<Vec<u8>>, kn: &Vec<Vec<u8>>, s1: usize, s2: usize) -> (r: (
        usize,
        usize,
        Vec<EditTag>,
    ))
        requires
            self.chunk_size() > 0,
            s1 <= ko@.len(),
            s2 <= kn@.len(),
            !(s1 == ko@.len() && s2 == kn@.len()),
        ensures
            (r.0 as int, r.1 as int) == window_end(
                byte_views(ko@),
                byte_views(kn@),
                s1 as int,
                s2 as int,
                self.chunk_size(),
                self.max_probe(),
            ),
            r.2@ == window_script(byte_views(ko@), byte_views(kn@), s1 as int, r.0 as int, s2 as int, r.1 as int),
            s1 <= r.0 <= ko@.len(),
            s2 <= r.1 <= kn@.len(),
            s1 + s2 < r.0 + r.1,
            old_used(r.2@) == r.0 - s1,
            new_used(r.2@) == r.1 - s2,
    {
        let ghost vo = byte_views(ko@);
        let ghost vn = byte_views(kn@);
        proof {
            lemma_window_end_range(vo, vn, s1 as int, s2 as int, self.chunk_size(), self.max_probe());
        }
        let n1 = ko.len();
        let n2 = kn.len();
        let e1 = if self.chunk_size >= n1 - s1 {
            n1
        } else {
            s1 + self.chunk_size
        };
        let e2 = if self.chunk_size >= n2 - s2 {
            n2
        } else {
            s2 + self.chunk_size
        };
        let sc = window(ko, kn, s1, e1, s2, e2);
        if (e1 < n1 || e2 < n2) && sc.len() > 0 && sc[sc.len() - 1] != EditTag::Equal {
            match probe(ko, kn, e1, e2, self.max_probe) {
                Some(p) => {
                    proof {
                        lemma_probe_range(vo, vn, e1 as int, e2 as int, 1, self.max_probe());
                    }
                    let sc2 = window(ko, kn, s1, p.0, s2, p.1);
                    (p.0, p.1, sc2)
                },
                None => (e1, e2, sc),
            }
        } else {
            (e1, e2, sc)
        }
    }

    /// The hunks of the windowed comparison of `old` with `new`.
    pub fn diff_windows(&self, old: &Vec<String>, new: &Vec<String>) -> (r: Vec<Hunk>)
        requires
            self.chunk_size() > 0,
            old@.len() < usize::MAX,
            new@.len() < usize::MAX,
        ensures
            hunk_views(r@) == chunked_hunks(
                keys_of(self.options(), string_views(old@)),
                keys_of(self.options(), string_views(new@)),
                string_views(old@),
                string_views(new@),
                0,
                0,
                self.chunk_size(),
                self.max_probe(),
            ),
    {
        let ko = line_keys(&self.options, old);
        let kn = line_keys(&self.options, new);
        let ghost vo = byte_views(ko@);
        let ghost vn = byte_views(kn@);
        let ghost a = string_views(old@);
        let ghost b = string_views(new@);
        let ghost w = self.chunk_size();
        let ghost m = self.max_probe();
        let n1 = ko.len();
        let n2 = kn.len();
        assert(n1 == old@.len() && n2 == new@.len()) by {
            assert(vo.len() == n1 && vn.len() == n2);
        }
        let mut out: Vec<Hunk> = Vec::new();
        let mut s1: usize = 0;
        let mut s2: usize = 0;
        while !(s1 == n1 && s2 == n2)
            invariant
                s1 <= n1,
                s2 <= n2,
                n1 == ko@.len(),
                n2 == kn@.len(),
                n1 == old@.len(),
                n2 == new@.len(),
                old@.len() < usize::MAX,
                new@.len() < usize::MAX,
                self.chunk_size() > 0,
                w == self.chunk_size(),
                m == self.max_probe(),
                vo == byte_views(ko@),
                vn == byte_views(kn@),
                a == string_views(old@),
                b == string_views(new@),
                hunk_views(out@) + chunked_hunks(vo, vn, a, b, s1 as int, s2 as int, w, m) == chunked_hunks(
                    vo,
                    vn,
                    a,
                    b,
                    0,
                    0,
                    w,
                    m,
                ),
            decreases (n1 - s1) + (n2 - s2),
        {
            let (e1, e2, sc) = self.next_window(&ko, &kn, s1, s2);
            let mut hs = group_hunks(&sc, old, new, s1, s2);
            let ghost head = hunk_views(hs@);
            assert(chunked_hunks(vo, vn, a, b, s1 as int, s2 as int, w, m) == head + chunked_hunks(
                vo,
                vn,
                a,
                b,
                e1 as int,
                e2 as int,
                w,
                m,
            ));
            let ghost before = out@;
            out.append(&mut hs);
            assert(hunk_views(out@) =~= hunk_views(before) + head);
            assert(hunk_views(out@) + chunked_hunks(vo, vn, a, b, e1 as int, e2 as int, w, m) =~= hunk_views(before)
                + (head + chunked_hunks(vo, vn, a, b, e1 as int, e2 as int, w, m)));
            s1 = e1;
            s2 = e2;
        }
        assert(hunk_views(out@) =~= hunk_views(out@) + chunked_hunks(vo, vn, a, b, s1 as int, s2 as int, w, m));
        out
    }

    /// Compares two mapped files window by window; fails if a line is not valid UTF-8.
    pub fn diff_large_files(&self, file1: &MmapFile, file2: &MmapFile, path1: &str, path2: &str) -> (r:
        Result<FileDiff, DiffError>)
        requires
            self.chunk_size() > 0,
            file1.bytes().len() < usize::MAX,
            file2.bytes().len() < usize::MAX,
        ensures
            r is Ok <==> text_lines_valid(file1.bytes()) && text_lines_valid(file2.bytes()),
            r matches Err(e) ==> e is EncodingError,
            r matches Ok(d) ==> is_large_pair(
                d,
                path1@,
                path2@,
                chunked_hunks(
                    keys_of(self.options(), decoded_text_lines(file1.bytes())),
                    keys_of(self.options(), decoded_text_lines(file2.bytes())),
                    decoded_text_lines(file1.bytes()),
                    decoded_text_lines(file2.bytes()),
                    0,
                    0,
                    self.chunk_size(),
                    self.max_probe(),
                ),
                decoded_text_lines(file2.bytes()),
            ),
    {
        let (a, b) = match read_both(file1, file2) {
            Ok(p) => p,
            Err(e) => {
                return Err(e);
            },
        };
        let hunks = self.diff_windows(&a, &b);
        Ok(FileDiff {
            path: path1.to_owned(),
            old_path: path1.to_owned(),
            new_path: path2.to_owned(),
            is_binary: false,
            is_new: false,
            is_deleted: false,
            hunks,
            full_content: Some(full_lines(&b)),
        })
    }
}


/// The larger of two lengths.
pub open spec fn longest(a: int, b: int) -> int {
    if a < b {
        b
    } else {
        a
    }
}

/// The starts `s, s + w, s + 2w, ...` below `m`.
pub open spec fn starts_from(s: int, m: int, w: int) -> Seq<int>
    decreases (if s < m {
        m - s
    } else {
        0
    }),
{
    if w <= 0 || s >= m {
        seq![]
    } else {
        seq![s] + starts_from(s + w, m, w)
    }
}

/// The hunks of the window that starts at line `s` of both files, each side clipped
/// to its length.
pub open spec fn window_at(
    ko: Seq<Seq<u8>>,
    kn: Seq<Seq<u8>>,
    co: Seq<Seq<char>>,
    cn: Seq<Seq<char>>,
    s: int,
    w: int,
) -> Seq<HunkView> {
    let s1 = clip(0, s, ko.len() as int);
    let s2 = clip(0, s, kn.len() as int);
    let e1 = clip(s1, w, ko.len() as int);
    let e2 = clip(s2, w, kn.len() as int);
    hunks_of(window_script(ko, kn, s1, e1, s2, e2), co, cn, s1, s2)
}

/// The hunks of the windows at `starts`, in that order.
pub open spec fn windows_over(
    ko: Seq<Seq<u8>>,
    kn: Seq<Seq<u8>>,
    co: Seq<Seq<char>>,
    cn: Seq<Seq<char>>,
    starts: Seq<int>,
    w: int,
) -> Seq<HunkView>
    decreases starts.len(),
{
    if starts.len() == 0 {
        seq![]
    } else {
        window_at(ko, kn, co, cn, starts[0], w) + windows_over(ko, kn, co, cn, starts.drop_first(), w)
    }
}

/// The hunks of the parallel comparison: every window at a multiple of `w`, aligned on
/// its own, in window order.
pub open spec fn parallel_hunks(
    ko: Seq<Seq<u8>>,
    kn: Seq<Seq<u8>>,
    co: Seq<Seq<char>>,
    cn: Seq<Seq<char>>,
    w: int,
) -> Seq<HunkView> {
    windows_over(ko, kn, co, cn, starts_from(0, longest(ko.len() as int, kn.len() as int), w), w)
}

/// Compares large files by aligning fixed windows in parallel and joining the results
/// in window order. A window's end is never pushed forward: that would read the lines
/// of the next window, and each window is aligned from its own lines alone.
pub struct ParallelDiffer {
    chunk_size: usize,
    options: DiffOptions,
    show_progress: bool,
}

/// Relies on rayon's `par_iter`, `map` and `collect`, which keep the order of the items:
/// entry `i` of the result holds the hunks of the window at `starts[i]`.
#[verifier::external_body]
fn par_windows(
    differ: &ParallelDiffer,
    ko: &Vec<Vec<u8>>,
    kn: &Vec<Vec<u8>>,
    old: &Vec<String>,
    new: &Vec<String>,
    starts: &Vec<usize>,
) -> (r: Vec<Vec<Hunk>>)
    requires
        differ.chunk_size() > 0,
        byte_views(ko@) == keys_of(differ.options(), string_views(old@)),
        byte_views(kn@) == keys_of(differ.options(), string_views(new@)),
        old@.len() < usize::MAX,
        new@.len() < usize::MAX,
    ensures
        r@.len() == starts@.len(),
        forall|i: int|
            0 <= i < starts@.len() ==> hunk_views((#[trigger] r@[i])@) == window_at(
                byte_views(ko@),
                byte_views(kn@),
                string_views(old@),
                string_views(new@),
                starts@[i] as int,
                differ.chunk_size(),
            ),
{
    starts.par_iter().map(|s| differ.diff_window(ko, kn, old, new, *s)).collect()
}

/// Joins the hunks of the windows at `starts`, given in that order, into one sequence.
fn join_windows(
    parts: Vec<Vec<Hunk>>,
    Ghost(ko): Ghost<Seq<Seq<u8>>>,
    Ghost(kn): Ghost<Seq<Seq<u8>>>,
    Ghost(co): Ghost<Seq<Seq<char>>>,
    Ghost(cn): Ghost<Seq<Seq<char>>>,
    Ghost(st): Ghost<Seq<int>>,
    Ghost(w): Ghost<int>,
) -> (r: Vec<Hunk>)
    requires
        parts@.len() == st.len(),
        forall|i: int| 0 <= i < st.len() ==> hunk_views((#[trigger] parts@[i])@) == window_at(ko, kn, co, cn, st[i], w),
    ensures
        hunk_views(r@) == windows_over(ko, kn, co, cn, st, w),
{
    let ghost pp = parts@;
    let n = parts.len();
    let mut rest = parts;
    let mut rev: Vec<Vec<Hunk>> = Vec::new();
    while rest.len() > 0
        invariant
            rest@ == pp.take(rest@.len() as int),
            rest@.len() + rev@.len() == n,
            n == pp.len(),
            forall|j: int| 0 <= j < rev@.len() ==> rev@[j] == pp[n - 1 - j],
        decreases rest@.len(),
    {
        let part = rest.pop().unwrap();
        rev.push(part);
        assert(rest@ =~= pp.take(rest@.len() as int));
    }
    let mut out: Vec<Hunk> = Vec::new();
    assert(st.subrange(0, n as int) =~= st);
    assert(hunk_views(out@) + windows_over(ko, kn, co, cn, st.subrange(0, n as int), w) =~= windows_over(ko, kn, co, cn, st, w));
    while rev.len() > 0
        invariant
            rev@.len() <= n,
            n == pp.len(),
            n == st.len(),
            forall|j: int| 0 <= j < rev@.len() ==> rev@[j] == pp[n - 1 - j],
            forall|i: int| 0 <= i < st.len() ==> hunk_views((#[trigger] pp[i])@) == window_at(ko, kn, co, cn, st[i], w),
            hunk_views(out@) + windows_over(ko, kn, co, cn, st.subrange(n - rev@.len(), n as int), w)
                == windows_over(ko, kn, co, cn, st, w),
        decreases rev@.len(),
    {
        let ghost i = n - rev@.len();
        let mut part = rev.pop().unwrap();
        assert(part == pp[i]);
        let ghost head = hunk_views(part@);
        let ghost sub = st.subrange(i, n as int);
        assert(sub[0] == st[i]);
        assert(sub.drop_first() =~= st.subrange(i + 1, n as int));
        assert(windows_over(ko, kn, co, cn, sub, w) == head + windows_over(ko, kn, co, cn, st.subrange(i + 1, n as int), w));
        let ghost before = hunk_views(out@);
        out.append(&mut part);
        assert(hunk_views(out@) =~= before + head);
        assert(hunk_views(out@) + windows_over(ko, kn, co, cn, st.subrange(i + 1, n as int), w) =~= before + (head
            + windows_over(ko, kn, co, cn, st.subrange(i + 1, n as int), w)));
    }
    assert(st.subrange(n as int, n as int) =~= Seq::<int>::empty());
    assert(hunk_views(out@) + Seq::<HunkView>::empty() =~= hunk_views(out@));
    out
}

impl ParallelDiffer {
    /// The number of lines a window spans.
    pub closed spec fn chunk_size(&self) -> int {
        self.chunk_size as int
    }

    /// The options that lines are compared under.
    pub closed spec fn options(&self) -> DiffOptions {
        self.options
    }

    /// Whether progress is to be reported.
    pub closed spec fn shows_progress(&self) -> bool {
        self.show_progress
    }

    pub fn new(chunk_size: usize, options: DiffOptions) -> (r: Self)
        ensures
            r.chunk_size() == chunk_size,
            r.options() == options,
            !r.shows_progress(),
    {
        ParallelDiffer { chunk_size, options, show_progress: false }
    }

    pub fn with_progress(chunk_size: usize, options: DiffOptions, show_progress: bool) -> (r: Self)
        ensures
            r.chunk_size() == chunk_size,
            r.options() == options,
            r.shows_progress() == show_progress,
    {
        ParallelDiffer { chunk_size, options, show_progress }
    }

    /// The hunks of the window that starts at line `s` of both files.
    pub fn diff_window(&self, ko: &Vec<Vec<u8>>, kn: &Vec<Vec<u8>>, old: &Vec<String>, new: &Vec<String>, s: usize) -> (r:
        Vec<Hunk>)
        requires
            self.chunk_size() > 0,
            byte_views(ko@) == keys_of(self.options(), string_views(old@)),
            byte_views(kn@) == keys_of(self.options(), string_views(new@)),
            old@.len() < usize::MAX,
            new@.len() < usize::MAX,
        ensures
            hunk_views(r@) == window_at(
                byte_views(ko@),
                byte_views(kn@),
                string_views(old@),
                string_views(new@),
                s as int,
                self.chunk_size(),
            ),
    {
        let n1 = ko.len();
        let n2 = kn.len();
        assert(n1 == old@.len() && n2 == new@.len()) by {
            assert(byte_views(ko@).len() == n1 && byte_views(kn@).len() == n2);
        }
        let s1 = if s < n1 { s } else { n1 };
        let s2 = if s < n2 { s } else { n2 };
        let e1 = if self.chunk_size >= n1 - s1 { n1 } else { s1 + self.chunk_size };
        let e2 = if self.chunk_size >= n2 - s2 { n2 } else { s2 + self.chunk_size };
        let sc = window(ko, kn, s1, e1, s2, e2);
        group_hunks(&sc, old, new, s1, s2)
    }

    /// The hunks of the parallel comparison of `old` with `new`.
    pub fn diff_lines(&self, old: &Vec<String>, new: &Vec<String>) -> (r: Vec<Hunk>)
        requires
            self.chunk_size() > 0,
            old@.len() < usize::MAX,
            new@.len() < usize::MAX,
        ensures
            hunk_views(r@) == parallel_hunks(
                keys_of(self.options(), string_views(old@)),
                keys_of(self.options(), string_views(new@)),
                string_views(old@),
                string_views(new@),
                self.chunk_size(),
            ),
    {
        let ko = line_keys(&self.options, old);
        let kn = line_keys(&self.options, new);
        let m = if old.len() < new.len() { new.len() } else { old.len() };
        let ghost w = self.chunk_size();
        let mut starts: Vec<usize> = Vec::new();
        let mut s: usize = 0;
        while s < m
            invariant
                w > 0,
                w == self.chunk_size(),
                starts@.map_values(|x: usize| x as int) + starts_from(s as int, m as int, w) == starts_from(
                    0,
                    m as int,
                    w,
                ),
            decreases m - s,
        {
            let ghost before = starts@;
            starts.push(s);
            assert(starts@.map_values(|x: usize| x as int) =~= before.map_values(|x: usize| x as int).push(s as int));
            assert(starts@.map_values(|x: usize| x as int) + starts_from(s + w, m as int, w) =~= before.map_values(
                |x: usize| x as int,
            ) + starts_from(s as int, m as int, w));
            if self.chunk_size >= m - s {
                assert(starts_from(s + w, m as int, w) =~= Seq::<int>::empty());
                s = m;
            } else {
                s = s + self.chunk_size;
            }
        }
        assert(starts@.map_values(|x: usize| x as int) =~= starts_from(0, m as int, w));
        let parts = par_windows(self, &ko, &kn, old, new, &starts);
        let ghost st = starts@.map_values(|x: usize| x as int);
        assert forall|i: int| 0 <= i < st.len() implies hunk_views((#[trigger] parts@[i])@) == window_at(
            byte_views(ko@),
            byte_views(kn@),
            string_views(old@),
            string_views(new@),
            st[i],
            w,
        ) by {
            assert(st[i] == starts@[i] as int);
        }
        join_windows(
            parts,
            Ghost(byte_views(ko@)),
            Ghost(byte_views(kn@)),
            Ghost(string_views(old@)),
            Ghost(string_views(new@)),
            Ghost(st),
            Ghost(w),
        )
    }

    /// Compares two mapped files window by window in parallel; fails if a line is not
    /// valid UTF-8.
    pub fn diff_parallel(&self, file1: &MmapFile, file2: &MmapFile, path1: &str, path2: &str) -> (r:
        Result<FileDiff, DiffError>)
        requires
            self.chunk_size() > 0,
            file1.bytes().len() < usize::MAX,
            file2.bytes().len() < usize::MAX,
        ensures
            r is Ok <==> text_lines_valid(file1.bytes()) && text_lines_valid(file2.bytes()),
            r matches Err(e) ==> e is EncodingError,
            r matches Ok(d) ==> is_large_pair(
                d,
                path1@,
                path2@,
                parallel_hunks(
                    keys_of(self.options(), decoded_text_lines(file1.bytes())),
                    keys_of(self.options(), decoded_text_lines(file2.bytes())),
                    decoded_text_lines(file1.bytes()),
                    decoded_text_lines(file2.bytes()),
                    self.chunk_size(),
                ),
                decoded_text_lines(file2.bytes()),
            ),
    {
        let (a, b) = match read_both(file1, file2) {
            Ok(p) => p,
            Err(e) => {
                return Err(e);
            },
        };
        let hunks = self.diff_lines(&a, &b);
        Ok(FileDiff {
            path: path1.to_owned(),
            old_path: path1.to_owned(),
            new_path: path2.to_owned(),
            is_binary: false,
            is_new: false,
            is_deleted: false,
            hunks,
            full_content: Some(full_lines(&b)),
        })
    }
}


/// The default size below which files are aligned whole: 10 MiB.
pub const DEFAULT_SMALL_THRESHOLD: u64 = 10485760;

/// The default size from which windows are aligned in parallel: 100 MiB.
pub const DEFAULT_MEDIUM_THRESHOLD: u64 = 104857600;

/// How a pair of files is compared.
#[derive(Debug, Clone, Copy, PartialEq, Eq, Structural)]
pub enum Strategy {
    Whole,
    Chunked,
    Parallel,
}

/// The strategy for files whose larger size is `size`.
pub open spec fn strategy_of(size: int, small: int, medium: int) -> Strategy {
    if size < small {
        Strategy::Whole
    } else if size < medium {
        Strategy::Chunked
    } else {
        Strategy::Parallel
    }
}

/// Chooses between whole-file, windowed and parallel comparison by the size of the
/// larger file.
pub struct AdaptiveDiffer {
    small_file_threshold: u64,
    medium_file_threshold: u64,
    chunk_size: usize,
    options: DiffOptions,
    show_progress: bool,
}

impl AdaptiveDiffer {
    /// Below this size files are aligned whole.
    pub closed spec fn small_threshold(&self) -> int {
        self.small_file_threshold as int
    }

    /// From this size windows are aligned in parallel.
    pub closed spec fn medium_threshold(&self) -> int {
        self.medium_file_threshold as int
    }

    /// The number of lines a window spans.
    pub closed spec fn chunk_size(&self) -> int {
        self.chunk_size as int
    }

    /// The options that lines are compared under.
    pub closed spec fn options(&self) -> DiffOptions {
        self.options
    }

    /// Whether progress is to be reported.
    pub closed spec fn shows_progress(&self) -> bool {
        self.show_progress
    }

    pub fn new(options: DiffOptions) -> (r: Self)
        ensures
            r.small_threshold() == DEFAULT_SMALL_THRESHOLD,
            r.medium_threshold() == DEFAULT_MEDIUM_THRESHOLD,
            r.chunk_size() == DEFAULT_CHUNK_SIZE,
            r.options() == options,
            r.shows_progress(),
    {
        AdaptiveDiffer {
            small_file_threshold: DEFAULT_SMALL_THRESHOLD,
            medium_file_threshold: DEFAULT_MEDIUM_THRESHOLD,
            chunk_size: DEFAULT_CHUNK_SIZE,
            options,
            show_progress: true,
        }
    }

    pub fn with_progress(options: DiffOptions, show_progress: bool) -> (r: Self)
        ensures
            r.small_threshold() == DEFAULT_SMALL_THRESHOLD,
            r.medium_threshold() == DEFAULT_MEDIUM_THRESHOLD,
            r.chunk_size() == DEFAULT_CHUNK_SIZE,
            r.options() == options,
            r.shows_progress() == show_progress,
    {
        let mut differ = Self::new(options);
        differ.show_progress = show_progress;
        differ
    }

    pub fn with_thresholds(options: DiffOptions, small_threshold: u64, medium_threshold: u64, chunk_size: usize) -> (r:
        Self)
        ensures
            r.small_threshold() == small_threshold,
            r.medium_threshold() == medium_threshold,
            r.chunk_size() == chunk_size,
            r.options() == options,
            r.shows_progress(),
    {
        AdaptiveDiffer {
            small_file_threshold: small_threshold,
            medium_file_threshold: medium_threshold,
            chunk_size,
            options,
            show_progress: true,
        }
    }

    /// The strategy for two files of `size1` and `size2` bytes.
    pub fn strategy_for(&self, size1: u64, size2: u64) -> (r: Strategy)
        ensures
            r == strategy_of(longest(size1 as int, size2 as int), self.small_threshold(), self.medium_threshold()),
    {
        let max_size = if size1 < size2 { size2 } else { size1 };
        if max_size < self.small_file_threshold {
            Strategy::Whole
        } else if max_size < self.medium_file_threshold {
            Strategy::Chunked
        } else {
            Strategy::Parallel
        }
    }

    /// Compares two mapped files with the strategy that their sizes call for; fails if
    /// a line is not valid UTF-8.
    pub fn diff_mapped(&self, file1: &MmapFile, file2: &MmapFile, path1: &str, path2: &str) -> (r: Result<
        FileDiff,
        DiffError,
    >)
        requires
            self.chunk_size() > 0,
            file1.bytes().len() < usize::MAX,
            file2.bytes().len() < usize::MAX,
        ensures
            binary_bytes(file1.bytes()) || binary_bytes(file2.bytes()) ==> (match r {
                Ok(d) => is_binary_pair(d, path1@, path2@),
                Err(_) => false,
            }),
            !binary_bytes(file1.bytes()) && !binary_bytes(file2.bytes()) ==> (r is Ok <==> text_lines_valid(
                file1.bytes(),
            ) && text_lines_valid(file2.bytes())),
            r matches Err(e) ==> e is EncodingError,
            !binary_bytes(file1.bytes()) && !binary_bytes(file2.bytes()) && r is Ok ==> ({
                let d = r->Ok_0;
                let a = decoded_text_lines(file1.bytes());
                let b = decoded_text_lines(file2.bytes());
                let ko = keys_of(self.options(), a);
                let kn = keys_of(self.options(), b);
                match strategy_of(
                    longest(file1.bytes().len() as int, file2.bytes().len() as int),
                    self.small_threshold(),
                    self.medium_threshold(),
                ) {
                    Strategy::Whole => is_text_pair(d, self.options(), path1@, path2@, a, b),
                    Strategy::Chunked => is_large_pair(
                        d,
                        path1@,
                        path2@,
                        chunked_hunks(ko, kn, a, b, 0, 0, self.chunk_size(), DEFAULT_MAX_PROBE as int),
                        b,
                    ),
                    Strategy::Parallel => is_large_pair(
                        d,
                        path1@,
                        path2@,
                        parallel_hunks(ko, kn, a, b, self.chunk_size()),
                        b,
                    ),
                }
            }),
    {
        if is_binary_content(file1.as_bytes()) || is_binary_content(file2.as_bytes()) {
            return Ok(binary_pair(path1, path2));
        }
        let size1 = file1.size() as u64;
        let size2 = file2.size() as u64;
        match self.strategy_for(size1, size2) {
            Strategy::Whole => {
                let (a, b) = match read_both(file1, file2) {
                    Ok(p) => p,
                    Err(e) => {
                        return Err(e);
                    },
                };
                let differ = FileDiffer::new(self.options);
                Ok(differ.compare_lines(&a, &b, path1, path2))
            },
            Strategy::Chunked => {
                let chunked = ChunkedDiffer::with_progress(self.chunk_size, self.options, self.show_progress);
                chunked.diff_large_files(file1, file2, path1, path2)
            },
            Strategy::Parallel => {
                let parallel = ParallelDiffer::with_progress(self.chunk_size, self.options, self.show_progress);
                parallel.diff_parallel(file1, file2, path1, path2)
            },
        }
    }
}


/// Whether no window at `s, s + w, ...` ends in the middle of a change: every window
/// boundary lies away from any change.
pub open spec fn calm_from(ko: Seq<Seq<u8>>, kn: Seq<Seq<u8>>, s: int, w: int) -> bool
    decreases (if s < longest(ko.len() as int, kn.len() as int) {
        longest(ko.len() as int, kn.len() as int) - s
    } else {
        0
    }),
{
    if w <= 0 || s < 0 || s >= longest(ko.len() as int, kn.len() as int) {
        true
    } else {
        let s1 = clip(0, s, ko.len() as int);
        let s2 = clip(0, s, kn.len() as int);
        let e1 = clip(s1, w, ko.len() as int);
        let e2 = clip(s2, w, kn.len() as int);
        !ends_mid_change(ko, kn, s1, e1, s2, e2) && calm_from(ko, kn, s + w, w)
    }
}

proof fn lemma_calm_windows(
    ko: Seq<Seq<u8>>,
    kn: Seq<Seq<u8>>,
    co: Seq<Seq<char>>,
    cn: Seq<Seq<char>>,
    s: int,
    w: int,
    max: int,
)
    requires
        w > 0,
        s >= 0,
        calm_from(ko, kn, s, w),
    ensures
        chunked_hunks(ko, kn, co, cn, clip(0, s, ko.len() as int), clip(0, s, kn.len() as int), w, max)
            == windows_over(ko, kn, co, cn, starts_from(s, longest(ko.len() as int, kn.len() as int), w), w),
    decreases (if s < longest(ko.len() as int, kn.len() as int) {
        longest(ko.len() as int, kn.len() as int) - s
    } else {
        0
    }),
{
    let m = longest(ko.len() as int, kn.len() as int);
    let n1 = ko.len() as int;
    let n2 = kn.len() as int;
    let s1 = clip(0, s, n1);
    let s2 = clip(0, s, n2);
    if s >= m {
        assert(s1 == n1 && s2 == n2);
        assert(starts_from(s, m, w) == Seq::<int>::empty());
    } else {
        let e1 = clip(s1, w, n1);
        let e2 = clip(s2, w, n2);
        assert(window_end(ko, kn, s1, s2, w, max) == (e1, e2));
        lemma_window_end_range(ko, kn, s1, s2, w, max);
        assert(e1 == clip(0, s + w, n1));
        assert(e2 == clip(0, s + w, n2));
        lemma_calm_windows(ko, kn, co, cn, s + w, w, max);
        let st = starts_from(s, m, w);
        assert(st == seq![s] + starts_from(s + w, m, w));
        assert(st[0] == s);
        assert(st.drop_first() =~= starts_from(s + w, m, w));
    }
}

/// Where every window boundary lies away from any change, the windowed comparison and
/// the parallel one give the same hunks.
pub proof fn lemma_chunked_matches_parallel(
    ko: Seq<Seq<u8>>,
    kn: Seq<Seq<u8>>,
    co: Seq<Seq<char>>,
    cn: Seq<Seq<char>>,
    w: int,
    max: int,
)
    requires
        w > 0,
        calm_from(ko, kn, 0, w),
    ensures
        chunked_hunks(ko, kn, co, cn, 0, 0, w, max) == parallel_hunks(ko, kn, co, cn, w),
{
    lemma_calm_windows(ko, kn, co, cn, 0, w, max);
    assert(clip(0, 0, ko.len() as int) == 0);
    assert(clip(0, 0, kn.len() as int) == 0);
}

/// Files that fit in one window give, windowed or in parallel, the hunks of the
/// whole-file alignment.
pub proof fn lemma_one_window_is_whole(
    ko: Seq<Seq<u8>>,
    kn: Seq<Seq<u8>>,
    co: Seq<Seq<char>>,
    cn: Seq<Seq<char>>,
    w: int,
    max: int,
)
    requires
        w > 0,
        ko.len() <= w,
        kn.len() <= w,
    ensures
        chunked_hunks(ko, kn, co, cn, 0, 0, w, max) == hunks_of(aligned_script(ko, kn), co, cn, 0, 0),
        parallel_hunks(ko, kn, co, cn, w) == hunks_of(aligned_script(ko, kn), co, cn, 0, 0),
{
    let n1 = ko.len() as int;
    let n2 = kn.len() as int;
    let m = longest(n1, n2);
    assert(ko.subrange(0, n1) =~= ko);
    assert(kn.subrange(0, n2) =~= kn);
    if n1 == 0 && n2 == 0 {
        assert(ko =~= kn);
        assert(aligned_script(ko, kn) =~= Seq::<EditTag>::empty());
        assert(runs(Seq::<EditTag>::empty()) == Seq::<(int, int)>::empty());
        assert(hunks_of(aligned_script(ko, kn), co, cn, 0, 0) =~= Seq::<HunkView>::empty());
        assert(starts_from(0, m, w) == Seq::<int>::empty());
    } else {
        assert(window_end(ko, kn, 0, 0, w, max) == (n1, n2));
        assert(chunked_hunks(ko, kn, co, cn, n1, n2, w, max) == Seq::<HunkView>::empty());
        let head = hunks_of(window_script(ko, kn, 0, n1, 0, n2), co, cn, 0, 0);
        assert(head + Seq::<HunkView>::empty() =~= head);
        let st = starts_from(0, m, w);
        assert(starts_from(w, m, w) == Seq::<int>::empty());
        assert(st =~= seq![0int]);
        assert(st.drop_first() =~= Seq::<int>::empty());
        assert(windows_over(ko, kn, co, cn, st.drop_first(), w) == Seq::<HunkView>::empty());
        assert(windows_over(ko, kn, co, cn, st, w) =~= window_at(ko, kn, co, cn, 0, w));
    }
}


proof fn lemma_same_window_no_hunks(
    k: Seq<Seq<u8>>,
    co: Seq<Seq<char>>,
    cn: Seq<Seq<char>>,
    s: int,
    e: int,
)
    ensures
        window_script(k, k, s, e, s, e) == all_equal(k.subrange(s, e).len() as int),
        hunks_of(window_script(k, k, s, e, s, e), co, cn, s, s) == Seq::<HunkView>::empty(),
{
    let n = k.subrange(s, e).len() as int;
    lemma_runs_all_equal(n);
    assert(hunks_of(all_equal(n), co, cn, s, s) =~= Seq::<HunkView>::empty());
}

proof fn lemma_chunked_same_from(
    k: Seq<Seq<u8>>,
    co: Seq<Seq<char>>,
    cn: Seq<Seq<char>>,
    s: int,
    w: int,
    max: int,
)
    requires
        w > 0,
        0 <= s <= k.len(),
    ensures
        chunked_hunks(k, k, co, cn, s, s, w, max) == Seq::<HunkView>::empty(),
    decreases k.len() - s,
{
    if s < k.len() {
        let e = clip(s, w, k.len() as int);
        lemma_same_window_no_hunks(k, co, cn, s, e);
        assert(!ends_mid_change(k, k, s, e, s, e));
        assert(window_end(k, k, s, s, w, max) == (e, e));
        lemma_chunked_same_from(k, co, cn, e, w, max);
        assert(Seq::<HunkView>::empty() + Seq::<HunkView>::empty() =~= Seq::<HunkView>::empty());
    }
}

proof fn lemma_windows_same(k: Seq<Seq<u8>>, co: Seq<Seq<char>>, cn: Seq<Seq<char>>, st: Seq<int>, w: int)
    requires
        w > 0,
    ensures
        windows_over(k, k, co, cn, st, w) == Seq::<HunkView>::empty(),
    decreases st.len(),
{
    if st.len() > 0 {
        let s1 = clip(0, st[0], k.len() as int);
        let e1 = clip(s1, w, k.len() as int);
        lemma_same_window_no_hunks(k, co, cn, s1, e1);
        lemma_windows_same(k, co, cn, st.drop_first(), w);
        assert(Seq::<HunkView>::empty() + Seq::<HunkView>::empty() =~= Seq::<HunkView>::empty());
    }
}

/// Comparing lines with themselves, windowed or in parallel, finds no hunk.
pub proof fn lemma_same_lines_no_hunks(k: Seq<Seq<u8>>, co: Seq<Seq<char>>, cn: Seq<Seq<char>>, w: int, max: int)
    requires
        w > 0,
    ensures
        chunked_hunks(k, k, co, cn, 0, 0, w, max) == Seq::<HunkView>::empty(),
        parallel_hunks(k, k, co, cn, w) == Seq::<HunkView>::empty(),
{
    lemma_chunked_same_from(k, co, cn, 0, w, max);
    lemma_windows_same(k, co, cn, starts_from(0, longest(k.len() as int, k.len() as int), w), w);
}


/// A windowed or parallel comparison of lines `a` with themselves finds no hunk, and the
/// whole view of the new side marks every line as kept.
pub proof fn lemma_large_self_comparison(
    d: FileDiff,
    opts: DiffOptions,
    old_p: Seq<char>,
    new_p: Seq<char>,
    a: Seq<Seq<char>>,
    w: int,
    max: int,
)
    requires
        w > 0,
        is_large_pair(d, old_p, new_p, chunked_hunks(keys_of(opts, a), keys_of(opts, a), a, a, 0, 0, w, max), a)
            || is_large_pair(d, old_p, new_p, parallel_hunks(keys_of(opts, a), keys_of(opts, a), a, a, w), a),
    ensures
        d.hunks@.len() == 0,
        d.full_content matches Some(fc) && forall|k: int|
            0 <= k < fc@.len() ==> (#[trigger] fc@[k]).change_type == crate::types::ChangeType::Context,
{
    lemma_same_lines_no_hunks(keys_of(opts, a), a, a, w, max);
    assert(hunk_views(d.hunks@).len() == 0);
    let fc = d.full_content->0;
    assert forall|k: int| 0 <= k < fc@.len() implies (#[trigger] fc@[k]).change_type
        == crate::types::ChangeType::Context by {
        assert(crate::types::line_views(fc@).len() == fc@.len());
        assert(crate::types::line_views(fc@)[k] == fc@[k]@);
        assert(crate::types::line_views(fc@)[k] == full_view(a)[k]);
    }
}

} // verus!
