//! Totals over hunks and files, and pages of the changed lines.

use vstd::prelude::*;

use crate::align::{hunk_at, hunks_of, lemma_runs_are_changes, lemma_subrange_step, line_at, runs, EditTag};
use crate::types::{ChangeType, DiffResult, FileDiff, Hunk, HunkView, LineChange, LineView, hunk_views, line_views};

verus! {

/// The number of lines of kind `k` in `s`.
pub open spec fn kind_count(s: Seq<LineView>, k: ChangeType) -> int
    decreases s.len(),
{
    if s.len() == 0 {
        0
    } else {
        kind_count(s.drop_last(), k) + if s.last().kind == k {
            1int
        } else {
            0int
        }
    }
}

/// The lines of all hunks `hs`, in order.
pub open spec fn hunk_lines(hs: Seq<HunkView>) -> Seq<LineView>
    decreases hs.len(),
{
    if hs.len() == 0 {
        seq![]
    } else {
        hunk_lines(hs.drop_last()) + hs.last().lines
    }
}

/// The hunk lines of all files `fs`, in order.
pub open spec fn file_lines(fs: Seq<FileDiff>) -> Seq<LineView>
    decreases fs.len(),
{
    if fs.len() == 0 {
        seq![]
    } else {
        file_lines(fs.drop_last()) + hunk_lines(hunk_views(fs.last().hunks@))
    }
}

/// The files among `fs` that have at least one hunk, in order.
pub open spec fn changed_files(fs: Seq<FileDiff>) -> Seq<FileDiff>
    decreases fs.len(),
{
    if fs.len() == 0 {
        seq![]
    } else if fs.last().hunks@.len() > 0 {
        changed_files(fs.drop_last()).push(fs.last())
    } else {
        changed_files(fs.drop_last())
    }
}

/// `r` sums up the files `fs`: those with hunks, and every added and deleted line.
pub open spec fn is_summary(r: DiffResult, fs: Seq<FileDiff>) -> bool {
    &&& r.files@ == changed_files(fs)
    &&& r.total_files_changed == changed_files(fs).len()
    &&& r.total_additions == kind_count(file_lines(fs), ChangeType::Add)
    &&& r.total_deletions == kind_count(file_lines(fs), ChangeType::Delete)
}

/// Counting over two sequences one after the other adds up.
pub proof fn lemma_kind_count_concat(a: Seq<LineView>, b: Seq<LineView>, k: ChangeType)
    ensures
        kind_count(a + b, k) == kind_count(a, k) + kind_count(b, k),
    decreases b.len(),
{
    if b.len() == 0 {
        assert(a + b =~= a);
    } else {
        lemma_kind_count_concat(a, b.drop_last(), k);
        assert((a + b).drop_last() =~= a + b.drop_last());
    }
}

proof fn lemma_kind_count_bounds(s: Seq<LineView>, k: ChangeType)
    ensures
        0 <= kind_count(s, k) <= s.len(),
    decreases s.len(),
{
    if s.len() > 0 {
        lemma_kind_count_bounds(s.drop_last(), k);
    }
}

/// Adds one to a count that must stay within `total`, or reports that it cannot.
fn bump(c: usize, grow: bool) -> (r: Option<usize>)
    ensures
        !grow ==> r == Some(c),
        grow ==> (r matches Some(x) ==> x == c + 1) && (r is None <==> c == usize::MAX),
{
    if !grow {
        Some(c)
    } else {
        c.checked_add(1)
    }
}

/// The added and deleted lines of `hunks`, or `None` where a count does not fit in
/// `usize`.
pub fn count_changes(hunks: &Vec<Hunk>) -> (r: Option<(usize, usize)>)
    ensures
        ({
            let a = kind_count(hunk_lines(hunk_views(hunks@)), ChangeType::Add);
            let d = kind_count(hunk_lines(hunk_views(hunks@)), ChangeType::Delete);
            &&& r is Some <==> a <= usize::MAX && d <= usize::MAX
            &&& r matches Some(p) ==> p.0 == a && p.1 == d
        }),
{
    let ghost hv = hunk_views(hunks@);
    let mut adds: usize = 0;
    let mut dels: usize = 0;
    let mut h: usize = 0;
    while h < hunks.len()
        invariant
            h <= hunks@.len(),
            hv == hunk_views(hunks@),
            adds == kind_count(hunk_lines(hv.take(h as int)), ChangeType::Add),
            dels == kind_count(hunk_lines(hv.take(h as int)), ChangeType::Delete),
        decreases hunks@.len() - h,
    {
        let lines = &hunks[h].lines;
        let ghost done = hunk_lines(hv.take(h as int));
        let ghost lv = line_views(lines@);
        assert(hv.take(h + 1).drop_last() =~= hv.take(h as int));
        assert(hunk_lines(hv.take(h + 1)) == done + lv);
        let mut l: usize = 0;
        while l < lines.len()
            invariant
                l <= lines@.len(),
                lv == line_views(lines@),
                adds == kind_count(done + lv.take(l as int), ChangeType::Add),
                dels == kind_count(done + lv.take(l as int), ChangeType::Delete),
                hunk_lines(hv.take(h + 1)) == done + lv,
                h < hunks@.len(),
                hv == hunk_views(hunks@),
            decreases lines@.len() - l,
        {
            let kind = lines[l].change_type;
            assert((done + lv.take(l + 1)).drop_last() =~= done + lv.take(l as int));
            let na = bump(adds, kind == ChangeType::Add);
            let nd = bump(dels, kind == ChangeType::Delete);
            match (na, nd) {
                (Some(x), Some(y)) => {
                    adds = x;
                    dels = y;
                },
                _ => {
                    proof {
                        let whole = hunk_lines(hv);
                        let rest = hv.subrange(h + 1, hv.len() as int);
                        lemma_hunk_lines_split(hv, h + 1);
                        assert(lv =~= lv.take(l + 1) + lv.subrange(l + 1, lv.len() as int));
                        assert(done + lv =~= (done + lv.take(l + 1)) + lv.subrange(l + 1, lv.len() as int));
                        lemma_kind_count_concat(done + lv.take(l + 1), lv.subrange(l + 1, lv.len() as int), ChangeType::Add);
                        lemma_kind_count_concat(done + lv.take(l + 1), lv.subrange(l + 1, lv.len() as int), ChangeType::Delete);
                        lemma_kind_count_concat(done + lv, hunk_lines(rest), ChangeType::Add);
                        lemma_kind_count_concat(done + lv, hunk_lines(rest), ChangeType::Delete);
                        lemma_kind_count_bounds(lv.subrange(l + 1, lv.len() as int), ChangeType::Add);
                        lemma_kind_count_bounds(lv.subrange(l + 1, lv.len() as int), ChangeType::Delete);
                        lemma_kind_count_bounds(hunk_lines(rest), ChangeType::Add);
                        lemma_kind_count_bounds(hunk_lines(rest), ChangeType::Delete);
                    }
                    return None;
                },
            }
            l = l + 1;
        }
        assert(lv.take(lines@.len() as int) =~= lv);
        h = h + 1;
    }
    assert(hv.take(hunks@.len() as int) =~= hv);
    Some((adds, dels))
}

/// The lines of `hs` are those of its first `k` hunks followed by those of the rest.
pub proof fn lemma_hunk_lines_split(hs: Seq<HunkView>, k: int)
    requires
        0 <= k <= hs.len(),
    ensures
        hunk_lines(hs) == hunk_lines(hs.take(k)) + hunk_lines(hs.subrange(k, hs.len() as int)),
    decreases hs.len() - k,
{
    if k == hs.len() {
        assert(hs.take(k) =~= hs);
        assert(hs.subrange(k, hs.len() as int) =~= Seq::<HunkView>::empty());
        assert(hunk_lines(hs) + Seq::<LineView>::empty() =~= hunk_lines(hs));
    } else {
        lemma_hunk_lines_split(hs, k + 1);
        let rest = hs.subrange(k, hs.len() as int);
        let rest1 = hs.subrange(k + 1, hs.len() as int);
        assert(hs.take(k + 1).drop_last() =~= hs.take(k));
        lemma_hunk_lines_front(rest);
        assert(rest.drop_first() =~= rest1);
        assert(hunk_lines(hs.take(k)) + hunk_lines(rest) =~= hunk_lines(hs.take(k)) + (hs[k].lines
            + hunk_lines(rest1)));
        assert(hunk_lines(hs.take(k + 1)) + hunk_lines(rest1) =~= (hunk_lines(hs.take(k)) + hs[k].lines)
            + hunk_lines(rest1));
    }
}

/// The lines of `hs` are those of its first hunk followed by those of the rest.
pub proof fn lemma_hunk_lines_front(hs: Seq<HunkView>)
    requires
        hs.len() > 0,
    ensures
        hunk_lines(hs) == hs[0].lines + hunk_lines(hs.drop_first()),
    decreases hs.len(),
{
    if hs.len() == 1 {
        assert(hs.drop_first() =~= Seq::<HunkView>::empty());
        assert(hs.drop_last() =~= Seq::<HunkView>::empty());
        assert(hunk_lines(hs.drop_last()) == Seq::<LineView>::empty());
        assert(hs.last() == hs[0]);
        assert(Seq::<LineView>::empty() + hs[0].lines =~= hs[0].lines);
        assert(hunk_lines(hs) =~= hs[0].lines);
        assert(hs[0].lines + Seq::<LineView>::empty() =~= hs[0].lines);
    } else {
        lemma_hunk_lines_front(hs.drop_last());
        assert(hs.drop_last().drop_first() =~= hs.drop_first().drop_last());
        assert(hs.drop_first().last() == hs.last());
        assert(hunk_lines(hs) =~= hs[0].lines + hunk_lines(hs.drop_first()));
    }
}


/// The hunk lines of `fs` are those of its first `k` files followed by those of the rest.
pub proof fn lemma_file_lines_split(fs: Seq<FileDiff>, k: int)
    requires
        0 <= k <= fs.len(),
    ensures
        file_lines(fs) == file_lines(fs.take(k)) + file_lines(fs.subrange(k, fs.len() as int)),
    decreases fs.len() - k,
{
    if k == fs.len() {
        assert(fs.take(k) =~= fs);
        assert(fs.subrange(k, fs.len() as int) =~= Seq::<FileDiff>::empty());
        assert(file_lines(fs) + Seq::<LineView>::empty() =~= file_lines(fs));
    } else {
        lemma_file_lines_split(fs, k + 1);
        let rest = fs.subrange(k, fs.len() as int);
        let rest1 = fs.subrange(k + 1, fs.len() as int);
        assert(fs.take(k + 1).drop_last() =~= fs.take(k));
        lemma_file_lines_front(rest);
        assert(rest.drop_first() =~= rest1);
        let mine = hunk_lines(hunk_views(fs[k].hunks@));
        assert(file_lines(fs.take(k)) + file_lines(rest) =~= file_lines(fs.take(k)) + (mine + file_lines(
            rest1,
        )));
        assert(file_lines(fs.take(k + 1)) + file_lines(rest1) =~= (file_lines(fs.take(k)) + mine)
            + file_lines(rest1));
    }
}

/// The hunk lines of `fs` are those of its first file followed by those of the rest.
pub proof fn lemma_file_lines_front(fs: Seq<FileDiff>)
    requires
        fs.len() > 0,
    ensures
        file_lines(fs) == hunk_lines(hunk_views(fs[0].hunks@)) + file_lines(fs.drop_first()),
    decreases fs.len(),
{
    let mine = hunk_lines(hunk_views(fs[0].hunks@));
    if fs.len() == 1 {
        assert(fs.drop_first() =~= Seq::<FileDiff>::empty());
        assert(fs.drop_last() =~= Seq::<FileDiff>::empty());
        assert(file_lines(fs.drop_last()) == Seq::<LineView>::empty());
        assert(fs.last() == fs[0]);
        assert(Seq::<LineView>::empty() + mine =~= mine);
        assert(mine + Seq::<LineView>::empty() =~= mine);
    } else {
        lemma_file_lines_front(fs.drop_last());
        assert(fs.drop_last().drop_first() =~= fs.drop_first().drop_last());
        assert(fs.drop_first().last() == fs.last());
        assert(file_lines(fs) =~= mine + file_lines(fs.drop_first()));
    }
}

impl DiffResult {
    /// Sums up the compared files: keeps those with hunks, in order, and counts every
    /// added and deleted line; `None` where a total does not fit in `usize`.
    pub fn from_files(files: Vec<FileDiff>) -> (r: Option<DiffResult>)
        ensures
            r is Some <==> kind_count(file_lines(files@), ChangeType::Add) <= usize::MAX && kind_count(
                file_lines(files@),
                ChangeType::Delete,
            ) <= usize::MAX,
            r matches Some(d) ==> is_summary(d, files@),
    {
        let ghost fs = files@;
        let n = files.len();
        let mut adds: usize = 0;
        let mut dels: usize = 0;
        let mut i: usize = 0;
        while i < n
            invariant
                n == fs.len(),
                fs == files@,
                i <= n,
                adds == kind_count(file_lines(fs.take(i as int)), ChangeType::Add),
                dels == kind_count(file_lines(fs.take(i as int)), ChangeType::Delete),
            decreases n - i,
        {
            let ghost done = file_lines(fs.take(i as int));
            let ghost mine = hunk_lines(hunk_views(fs[i as int].hunks@));
            assert(fs.take(i + 1).drop_last() =~= fs.take(i as int));
            assert(file_lines(fs.take(i + 1)) == done + mine);
            proof {
                lemma_kind_count_concat(done, mine, ChangeType::Add);
                lemma_kind_count_concat(done, mine, ChangeType::Delete);
                lemma_file_lines_split(fs, i + 1);
                let rest = file_lines(fs.subrange(i + 1, n as int));
                lemma_kind_count_concat(done + mine, rest, ChangeType::Add);
                lemma_kind_count_concat(done + mine, rest, ChangeType::Delete);
                lemma_kind_count_bounds(rest, ChangeType::Add);
                lemma_kind_count_bounds(rest, ChangeType::Delete);
                lemma_kind_count_bounds(mine, ChangeType::Add);
                lemma_kind_count_bounds(mine, ChangeType::Delete);
            }
            let (fa, fd) = match count_changes(&files[i].hunks) {
                Some(p) => p,
                None => {
                    return None;
                },
            };
            adds = match adds.checked_add(fa) {
                Some(x) => x,
                None => {
                    return None;
                },
            };
            dels = match dels.checked_add(fd) {
                Some(x) => x,
                None => {
                    return None;
                },
            };
            i = i + 1;
        }
        assert(fs.take(n as int) =~= fs);
        let mut rest = files;
        let mut back: Vec<FileDiff> = Vec::new();
        while rest.len() > 0
            invariant
                rest@ == fs.take(rest@.len() as int),
                rest@.len() + back@.len() == fs.len(),
                forall|j: int| 0 <= j < back@.len() ==> back@[j] == fs[fs.len() - 1 - j],
            decreases rest@.len(),
        {
            let f = rest.pop().unwrap();
            back.push(f);
            assert(rest@ =~= fs.take(rest@.len() as int));
        }
        let mut kept: Vec<FileDiff> = Vec::new();
        while back.len() > 0
            invariant
                back@.len() <= fs.len(),
                forall|j: int| 0 <= j < back@.len() ==> back@[j] == fs[fs.len() - 1 - j],
                kept@ == changed_files(fs.take(fs.len() - back@.len())),
            decreases back@.len(),
        {
            let ghost k = fs.len() - back@.len();
            let f = back.pop().unwrap();
            assert(f == fs[k]);
            assert(fs.take(k + 1).drop_last() =~= fs.take(k));
            assert(fs.take(k + 1).last() == fs[k]);
            assert(changed_files(fs.take(k + 1)) == if fs[k].hunks@.len() > 0 {
                changed_files(fs.take(k)).push(fs[k])
            } else {
                changed_files(fs.take(k))
            });
            if f.hunks.len() > 0 {
                kept.push(f);
            }
        }
        assert(fs.take(fs.len() as int) =~= fs);
        let count = kept.len();
        Some(DiffResult { files: kept, total_additions: adds, total_deletions: dels, total_files_changed: count })
    }
}

/// A copy of one line.
pub fn copy_line(l: &LineChange) -> (r: LineChange)
    ensures
        r@ == l@,
{
    LineChange {
        change_type: l.change_type,
        old_line_num: l.old_line_num,
        new_line_num: l.new_line_num,
        content: l.content.clone(),
    }
}

/// Appends a copy of every line of `hunks` to `out`.
fn push_hunk_lines(out: &mut Vec<LineChange>, hunks: &Vec<Hunk>)
    ensures
        line_views(final(out)@) == line_views(old(out)@) + hunk_lines(hunk_views(hunks@)),
{
    let ghost start = line_views(out@);
    let ghost hv = hunk_views(hunks@);
    let mut h: usize = 0;
    while h < hunks.len()
        invariant
            h <= hunks@.len(),
            hv == hunk_views(hunks@),
            line_views(out@) == start + hunk_lines(hv.take(h as int)),
        decreases hunks@.len() - h,
    {
        let lines = &hunks[h].lines;
        let ghost lv = line_views(lines@);
        let ghost before = line_views(out@);
        assert(hv.take(h + 1).drop_last() =~= hv.take(h as int));
        let mut l: usize = 0;
        while l < lines.len()
            invariant
                l <= lines@.len(),
                lv == line_views(lines@),
                line_views(out@) == before + lv.take(l as int),
            decreases lines@.len() - l,
        {
            let c = copy_line(&lines[l]);
            assert(line_views(out@.push(c)) =~= line_views(out@).push(c@));
            out.push(c);
            assert(before + lv.take(l + 1) =~= (before + lv.take(l as int)).push(c@));
            l = l + 1;
        }
        assert(lv.take(lines@.len() as int) =~= lv);
        assert(start + hunk_lines(hv.take(h + 1)) =~= (start + hunk_lines(hv.take(h as int))) + lv);
        h = h + 1;
    }
    assert(hv.take(hunks@.len() as int) =~= hv);
}

/// A copy of every hunk line of every file of `result`, in order.
pub fn all_lines(result: &DiffResult) -> (r: Vec<LineChange>)
    ensures
        line_views(r@) == file_lines(result.files@),
{
    let ghost fs = result.files@;
    let mut out: Vec<LineChange> = Vec::new();
    let mut i: usize = 0;
    while i < result.files.len()
        invariant
            i <= fs.len(),
            fs == result.files@,
            line_views(out@) == file_lines(fs.take(i as int)),
        decreases fs.len() - i,
    {
        assert(fs.take(i + 1).drop_last() =~= fs.take(i as int));
        push_hunk_lines(&mut out, &result.files[i].hunks);
        i = i + 1;
    }
    assert(fs.take(fs.len() as int) =~= fs);
    out
}

/// The largest number of lines a page holds.
pub const MAX_PAGE_SIZE: usize = 1000;

/// One page of the changed lines of a comparison.
pub struct Page {
    pub lines: Vec<LineChange>,
    pub total_lines: usize,
    pub page: usize,
    pub page_size: usize,
    pub total_pages: usize,
    pub has_more: bool,
}

/// The page size used for a requested one: capped at `MAX_PAGE_SIZE`.
pub open spec fn capped(page_size: int) -> int {
    if page_size < MAX_PAGE_SIZE {
        page_size
    } else {
        MAX_PAGE_SIZE as int
    }
}

/// `p` is page `page` of the lines `all` in pages of `ps` lines.
pub open spec fn is_page(p: Page, all: Seq<LineView>, page: int, ps: int) -> bool {
    let total = all.len() as int;
    let start = page * ps;
    &&& p.total_lines == total
    &&& p.page == page
    &&& p.page_size == ps
    &&& p.total_pages == total / ps + if total % ps == 0 {
        0int
    } else {
        1int
    }
    &&& line_views(p.lines@) == if start < total {
        all.subrange(start, if start + ps < total {
            start + ps
        } else {
            total
        })
    } else {
        seq![]
    }
    &&& p.has_more == (start + ps < total)
}

/// Page `page` (from 0) of all hunk lines of `result`, at most `min(page_size, 1000)`
/// lines to a page, with the number of lines and of pages.
pub fn paginate(result: &DiffResult, page: usize, page_size: usize) -> (r: Page)
    requires
        page_size > 0,
    ensures
        is_page(r, file_lines(result.files@), page as int, capped(page_size as int)),
{
    let ps = if page_size < MAX_PAGE_SIZE { page_size } else { MAX_PAGE_SIZE };
    let all = all_lines(result);
    let ghost av = line_views(all@);
    let total = all.len();
    let total_pages = if total % ps == 0 {
        total / ps
    } else {
        assert(total / ps < total) by (nonlinear_arith)
            requires
                total % ps != 0,
                ps > 0,
        {
        }
        total / ps + 1
    };
    let mut lines: Vec<LineChange> = Vec::new();
    let mut has_more = false;
    match page.checked_mul(ps) {
        Some(start) => {
            if start < total {
                let end = if ps < total - start { start + ps } else { total };
                has_more = end < total;
                let mut k: usize = start;
                while k < end
                    invariant
                        start <= k <= end,
                        end <= total,
                        total == all@.len(),
                        av == line_views(all@),
                        line_views(lines@) =~= av.subrange(start as int, k as int),
                    decreases end - k,
                {
                    let c = copy_line(&all[k]);
                    assert(line_views(lines@.push(c)) =~= line_views(lines@).push(c@));
                    lines.push(c);
                    k = k + 1;
                }
            }
        },
        None => {
            assert(page * ps > usize::MAX);
        },
    }
    assert(line_views(lines@) =~= line_views(lines@));
    proof {
        if !(page * ps < total) {
            assert(line_views(lines@) =~= Seq::<LineView>::empty());
        }
    }
    Page { lines, total_lines: total, page, page_size: ps, total_pages, has_more }
}


/// The hunk of steps `a..b` of a script has, as its old size, its kept and removed
/// lines, and, as its new size, its kept and added lines.
pub proof fn lemma_hunk_sizes(
    s: Seq<EditTag>,
    co: Seq<Seq<char>>,
    cn: Seq<Seq<char>>,
    s1: int,
    s2: int,
    a: int,
    b: int,
)
    requires
        0 <= a <= b <= s.len(),
    ensures
        ({
            let h = hunk_at(s, co, cn, s1, s2, a, b);
            &&& h.old_count == kind_count(h.lines, ChangeType::Context) + kind_count(h.lines, ChangeType::Delete)
            &&& h.new_count == kind_count(h.lines, ChangeType::Context) + kind_count(h.lines, ChangeType::Add)
        }),
    decreases b - a,
{
    let h = hunk_at(s, co, cn, s1, s2, a, b);
    if a == b {
        assert(s.subrange(a, b) =~= Seq::<EditTag>::empty());
        assert(h.lines =~= Seq::<LineView>::empty());
    } else {
        lemma_hunk_sizes(s, co, cn, s1, s2, a, b - 1);
        lemma_subrange_step(s, a, b - 1);
        let g = hunk_at(s, co, cn, s1, s2, a, b - 1);
        assert(h.lines.drop_last() =~= g.lines);
        assert(h.lines.last() == line_at(s, co, cn, s1, s2, b - 1));
    }
}

/// Every hunk of a script counts, as its old and new sizes, its kept and removed lines
/// and its kept and added lines.
pub proof fn lemma_hunks_sizes(s: Seq<EditTag>, co: Seq<Seq<char>>, cn: Seq<Seq<char>>, s1: int, s2: int)
    ensures
        forall|k: int|
            0 <= k < hunks_of(s, co, cn, s1, s2).len() ==> {
                let h = #[trigger] hunks_of(s, co, cn, s1, s2)[k];
                &&& h.old_count == kind_count(h.lines, ChangeType::Context) + kind_count(
                    h.lines,
                    ChangeType::Delete,
                )
                &&& h.new_count == kind_count(h.lines, ChangeType::Context) + kind_count(
                    h.lines,
                    ChangeType::Add,
                )
            },
{
    lemma_runs_are_changes(s);
    assert forall|k: int| 0 <= k < hunks_of(s, co, cn, s1, s2).len() implies {
        let h = #[trigger] hunks_of(s, co, cn, s1, s2)[k];
        &&& h.old_count == kind_count(h.lines, ChangeType::Context) + kind_count(h.lines, ChangeType::Delete)
        &&& h.new_count == kind_count(h.lines, ChangeType::Context) + kind_count(h.lines, ChangeType::Add)
    } by {
        let r = runs(s)[k];
        lemma_hunk_sizes(s, co, cn, s1, s2, r.0, r.1);
    }
}

} // verus!
