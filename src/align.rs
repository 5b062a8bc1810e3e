//! Alignment of two line sequences into an edit script, and the grouping of a script
//! into hunks.

use vstd::prelude::*;

use crate::line_index::string_views;
use crate::types::{ChangeType, DiffOptions, Hunk, HunkView, LineChange, LineView, hunk_views, line_views};

verus! {

/// One step of an edit script: a line kept on both sides, taken from the old side, or
/// added on the new side.
#[derive(Debug, Clone, Copy, PartialEq, Eq, Structural)]
pub enum EditTag {
    Equal,
    Delete,
    Insert,
}

/// The number of old lines that script `s` consumes.
pub open spec fn old_used(s: Seq<EditTag>) -> int
    decreases s.len(),
{
    if s.len() == 0 {
        0
    } else {
        old_used(s.drop_last()) + if s.last() == EditTag::Insert {
            0int
        } else {
            1int
        }
    }
}

/// The number of new lines that script `s` consumes.
pub open spec fn new_used(s: Seq<EditTag>) -> int
    decreases s.len(),
{
    if s.len() == 0 {
        0
    } else {
        new_used(s.drop_last()) + if s.last() == EditTag::Delete {
            0int
        } else {
            1int
        }
    }
}

/// Whether `s` is an edit script from `a` to `b`: it consumes every line of each side
/// in order, and keeps only pairs of equal lines.
pub open spec fn is_script<K>(s: Seq<EditTag>, a: Seq<K>, b: Seq<K>) -> bool {
    &&& old_used(s) == a.len()
    &&& new_used(s) == b.len()
    &&& forall|k: int|
        0 <= k < s.len() && #[trigger] s[k] == EditTag::Equal ==> a[old_used(s.take(k))] == b[new_used(
            s.take(k),
        )]
}

pub open spec fn byte_views(s: Seq<Vec<u8>>) -> Seq<Seq<u8>> {
    s.map_values(|v: Vec<u8>| v@)
}

/// The script that Myers' algorithm finds between two sequences of comparison keys.
pub uninterp spec fn myers_script(a: Seq<Seq<u8>>, b: Seq<Seq<u8>>) -> Seq<EditTag>;

/// Relies on `similar::capture_diff_slices` with `Algorithm::Myers` (no deadline), and
/// on `DiffOp::iter_changes` to list its operations line by line: a deterministic edit
/// script from `old` to `new`.
#[verifier::external_body]
fn myers(old: &[Vec<u8>], new: &[Vec<u8>]) -> (r: Vec<EditTag>)
    ensures
        r@ == myers_script(byte_views(old@), byte_views(new@)),
        is_script(r@, byte_views(old@), byte_views(new@)),
{
    similar::capture_diff_slices(similar::Algorithm::Myers, old, new)
        .iter()
        .flat_map(|op| op.iter_changes(old, new))
        .map(|c| match c.tag() {
            similar::ChangeTag::Equal => EditTag::Equal,
            similar::ChangeTag::Delete => EditTag::Delete,
            similar::ChangeTag::Insert => EditTag::Insert,
        })
        .collect()
}

/// `n` steps that keep every line.
pub open spec fn all_equal(n: int) -> Seq<EditTag> {
    Seq::new(n as nat, |k: int| EditTag::Equal)
}

/// The script used to align two key sequences: identical sides keep every line,
/// others take Myers' script.
pub open spec fn aligned_script(a: Seq<Seq<u8>>, b: Seq<Seq<u8>>) -> Seq<EditTag> {
    if a == b {
        all_equal(a.len() as int)
    } else {
        myers_script(a, b)
    }
}

proof fn lemma_used_all_equal(n: int)
    requires
        n >= 0,
    ensures
        old_used(all_equal(n)) == n,
        new_used(all_equal(n)) == n,
    decreases n,
{
    if n > 0 {
        assert(all_equal(n).drop_last() =~= all_equal(n - 1));
        lemma_used_all_equal(n - 1);
    }
}

proof fn lemma_all_equal_is_script<K>(a: Seq<K>)
    ensures
        is_script(all_equal(a.len() as int), a, a),
{
    let s = all_equal(a.len() as int);
    lemma_used_all_equal(a.len() as int);
    assert forall|k: int| 0 <= k < s.len() && #[trigger] s[k] == EditTag::Equal implies a[old_used(
        s.take(k),
    )] == a[new_used(s.take(k))] by {
        assert(s.take(k) =~= all_equal(k));
        lemma_used_all_equal(k);
    }
}

/// Whether two byte strings are equal.
pub fn same_bytes(a: &Vec<u8>, b: &Vec<u8>) -> (r: bool)
    ensures
        r == (a@ == b@),
{
    if a.len() != b.len() {
        return false;
    }
    let mut i: usize = 0;
    while i < a.len()
        invariant
            a@.len() == b@.len(),
            i <= a@.len(),
            forall|j: int| 0 <= j < i ==> a@[j] == b@[j],
        decreases a@.len() - i,
    {
        if a[i] != b[i] {
            return false;
        }
        i = i + 1;
    }
    assert(a@ =~= b@);
    true
}

/// Whether two key sequences are equal.
fn same_keys(a: &[Vec<u8>], b: &[Vec<u8>]) -> (r: bool)
    ensures
        r == (byte_views(a@) == byte_views(b@)),
{
    if a.len() != b.len() {
        assert(byte_views(a@).len() != byte_views(b@).len());
        return false;
    }
    let mut i: usize = 0;
    while i < a.len()
        invariant
            a@.len() == b@.len(),
            i <= a@.len(),
            forall|j: int| 0 <= j < i ==> a@[j]@ == b@[j]@,
        decreases a@.len() - i,
    {
        if !same_bytes(&a[i], &b[i]) {
            assert(byte_views(a@)[i as int] != byte_views(b@)[i as int]);
            return false;
        }
        i = i + 1;
    }
    assert(byte_views(a@) =~= byte_views(b@));
    true
}

/// The edit script between two key sequences.
pub fn script_for(a: &[Vec<u8>], b: &[Vec<u8>]) -> (r: Vec<EditTag>)
    ensures
        r@ == aligned_script(byte_views(a@), byte_views(b@)),
        is_script(r@, byte_views(a@), byte_views(b@)),
{
    if same_keys(a, b) {
        let n = a.len();
        let mut r: Vec<EditTag> = Vec::new();
        let mut i: usize = 0;
        while i < n
            invariant
                i <= n,
                r@ =~= all_equal(i as int),
            decreases n - i,
        {
            r.push(EditTag::Equal);
            i = i + 1;
        }
        proof {
            lemma_all_equal_is_script(byte_views(a@));
        }
        r
    } else {
        myers(a, b)
    }
}


/// The lowercase form of a text.
pub uninterp spec fn lower_of(s: Seq<char>) -> Seq<char>;

/// Relies on `str::to_lowercase`: the lowercase mapping of the text, which depends on
/// its characters alone.
#[verifier::external_body]
pub(crate) fn lowercase(s: &str) -> (r: String)
    ensures
        r@ == lower_of(s@),
{
    s.to_lowercase()
}

/// ASCII whitespace: space, tab, newline, vertical tab, form feed, carriage return.
pub open spec fn is_blank(b: u8) -> bool {
    b == 32 || b == 9 || b == 10 || b == 11 || b == 12 || b == 13
}

/// `b` with each run of whitespace replaced by one space.
pub open spec fn collapse_blanks(b: Seq<u8>) -> Seq<u8>
    decreases b.len(),
{
    if b.len() == 0 {
        seq![]
    } else {
        let p = collapse_blanks(b.drop_last());
        if !is_blank(b.last()) {
            p.push(b.last())
        } else if b.len() >= 2 && is_blank(b[b.len() - 2]) {
            p
        } else {
            p.push(32u8)
        }
    }
}

/// The comparison key of a line: its UTF-8 bytes, lowercased first when case is
/// ignored, with whitespace runs collapsed when whitespace is ignored.
pub open spec fn key_of(opts: DiffOptions, line: Seq<char>) -> Seq<u8> {
    let t = if opts.ignore_case {
        lower_of(line)
    } else {
        line
    };
    let b = vstd::utf8::encode_utf8(t);
    if opts.ignore_whitespace {
        collapse_blanks(b)
    } else {
        b
    }
}

pub open spec fn keys_of(opts: DiffOptions, lines: Seq<Seq<char>>) -> Seq<Seq<u8>> {
    Seq::new(lines.len(), |k: int| key_of(opts, lines[k]))
}

/// Replaces each run of whitespace by one space.
fn collapse(b: &[u8]) -> (r: Vec<u8>)
    ensures
        r@ == collapse_blanks(b@),
{
    let mut out: Vec<u8> = Vec::new();
    let mut i: usize = 0;
    while i < b.len()
        invariant
            i <= b@.len(),
            out@ == collapse_blanks(b@.take(i as int)),
        decreases b@.len() - i,
    {
        let c = b[i];
        proof {
            assert(b@.take(i + 1).drop_last() =~= b@.take(i as int));
        }
        if !(c == 32 || c == 9 || c == 10 || c == 11 || c == 12 || c == 13) {
            out.push(c);
        } else if i >= 1 && (b[i - 1] == 32 || b[i - 1] == 9 || b[i - 1] == 10 || b[i - 1] == 11
            || b[i - 1] == 12 || b[i - 1] == 13) {
        } else {
            out.push(32);
        }
        i = i + 1;
    }
    assert(b@.take(b@.len() as int) =~= b@);
    out
}

/// The comparison key of one line.
pub fn line_key(opts: &DiffOptions, line: &String) -> (r: Vec<u8>)
    ensures
        r@ == key_of(*opts, line@),
{
    let lowered: String;
    let text: &str = if opts.ignore_case {
        lowered = lowercase(line.as_str());
        lowered.as_str()
    } else {
        line.as_str()
    };
    let bytes = text.as_bytes();
    if opts.ignore_whitespace {
        collapse(bytes)
    } else {
        vstd::slice::slice_to_vec(bytes)
    }
}

/// The comparison key of every line.
pub fn line_keys(opts: &DiffOptions, lines: &Vec<String>) -> (r: Vec<Vec<u8>>)
    ensures
        byte_views(r@) == keys_of(*opts, string_views(lines@)),
{
    let mut out: Vec<Vec<u8>> = Vec::new();
    let mut i: usize = 0;
    while i < lines.len()
        invariant
            i <= lines@.len(),
            byte_views(out@) =~= keys_of(*opts, string_views(lines@)).take(i as int),
        decreases lines@.len() - i,
    {
        let k = line_key(opts, &lines[i]);
        proof {
            assert(byte_views(out@.push(k)) =~= byte_views(out@).push(k@));
        }
        out.push(k);
        i = i + 1;
    }
    assert(keys_of(*opts, string_views(lines@)).take(lines@.len() as int) =~= keys_of(
        *opts,
        string_views(lines@),
    ));
    out
}


/// Line `k` of script `s` applied to the old lines `co` from index `s1` and the new
/// lines `cn` from index `s2`, numbered from 1 on each side.
pub open spec fn line_at(
    s: Seq<EditTag>,
    co: Seq<Seq<char>>,
    cn: Seq<Seq<char>>,
    s1: int,
    s2: int,
    k: int,
) -> LineView {
    let i = s1 + old_used(s.take(k));
    let j = s2 + new_used(s.take(k));
    match s[k] {
        EditTag::Equal => LineView {
            kind: ChangeType::Context,
            old_num: Some(i + 1),
            new_num: Some(j + 1),
            content: co[i],
        },
        EditTag::Delete => LineView {
            kind: ChangeType::Delete,
            old_num: Some(i + 1),
            new_num: None,
            content: co[i],
        },
        EditTag::Insert => LineView {
            kind: ChangeType::Add,
            old_num: None,
            new_num: Some(j + 1),
            content: cn[j],
        },
    }
}

/// Every line of script `s`, in order.
pub open spec fn stream_of(
    s: Seq<EditTag>,
    co: Seq<Seq<char>>,
    cn: Seq<Seq<char>>,
    s1: int,
    s2: int,
) -> Seq<LineView> {
    Seq::new(s.len(), |k: int| line_at(s, co, cn, s1, s2, k))
}

/// The maximal runs `(start, end)` of consecutive changes in script `s`, in order.
pub open spec fn runs(s: Seq<EditTag>) -> Seq<(int, int)>
    decreases s.len(),
{
    if s.len() == 0 {
        seq![]
    } else {
        let p = runs(s.drop_last());
        let n = s.len() - 1;
        if s.last() == EditTag::Equal {
            p
        } else if n > 0 && s[n - 1] != EditTag::Equal {
            p.update(p.len() - 1, (p.last().0, n + 1))
        } else {
            p.push((n, n + 1))
        }
    }
}

/// The hunk made of steps `a..b` of script `s`.
pub open spec fn hunk_at(
    s: Seq<EditTag>,
    co: Seq<Seq<char>>,
    cn: Seq<Seq<char>>,
    s1: int,
    s2: int,
    a: int,
    b: int,
) -> HunkView {
    HunkView {
        old_start: s1 + old_used(s.take(a)) + if old_used(s.subrange(a, b)) > 0 {
            1int
        } else {
            0int
        },
        old_count: old_used(s.subrange(a, b)),
        new_start: s2 + new_used(s.take(a)) + if new_used(s.subrange(a, b)) > 0 {
            1int
        } else {
            0int
        },
        new_count: new_used(s.subrange(a, b)),
        lines: Seq::new((b - a) as nat, |t: int| line_at(s, co, cn, s1, s2, a + t)),
    }
}

/// The hunks of script `s`: one for each maximal run of changes.
pub open spec fn hunks_of(
    s: Seq<EditTag>,
    co: Seq<Seq<char>>,
    cn: Seq<Seq<char>>,
    s1: int,
    s2: int,
) -> Seq<HunkView> {
    runs(s).map_values(|r: (int, int)| hunk_at(s, co, cn, s1, s2, r.0, r.1))
}

proof fn lemma_take_step(s: Seq<EditTag>, k: int)
    requires
        0 <= k < s.len(),
    ensures
        s.take(k + 1).drop_last() == s.take(k),
        s.take(k + 1).last() == s[k],
        old_used(s.take(k + 1)) == old_used(s.take(k)) + if s[k] == EditTag::Insert {
            0int
        } else {
            1int
        },
        new_used(s.take(k + 1)) == new_used(s.take(k)) + if s[k] == EditTag::Delete {
            0int
        } else {
            1int
        },
{
    assert(s.take(k + 1).drop_last() =~= s.take(k));
}

pub proof fn lemma_subrange_step(s: Seq<EditTag>, a: int, b: int)
    requires
        0 <= a <= b < s.len(),
    ensures
        old_used(s.subrange(a, b + 1)) == old_used(s.subrange(a, b)) + if s[b] == EditTag::Insert {
            0int
        } else {
            1int
        },
        new_used(s.subrange(a, b + 1)) == new_used(s.subrange(a, b)) + if s[b] == EditTag::Delete {
            0int
        } else {
            1int
        },
{
    assert(s.subrange(a, b + 1).drop_last() =~= s.subrange(a, b));
    if a == b {
        assert(s.subrange(a, b) =~= Seq::<EditTag>::empty());
    }
}

/// A prefix of a script consumes no more than the whole script.
pub proof fn lemma_used_prefix(s: Seq<EditTag>, k: int)
    requires
        0 <= k <= s.len(),
    ensures
        0 <= old_used(s.take(k)) <= old_used(s),
        0 <= new_used(s.take(k)) <= new_used(s),
        old_used(s) <= s.len(),
        new_used(s) <= s.len(),
    decreases s.len() - k,
{
    lemma_used_bounds(s);
    if k < s.len() {
        lemma_take_step(s, k);
        lemma_used_prefix(s, k + 1);
        lemma_used_bounds(s.take(k));
    } else {
        assert(s.take(k) =~= s);
    }
}

proof fn lemma_used_bounds(s: Seq<EditTag>)
    ensures
        0 <= old_used(s) <= s.len(),
        0 <= new_used(s) <= s.len(),
    decreases s.len(),
{
    if s.len() > 0 {
        lemma_used_bounds(s.drop_last());
    }
}

/// Line `k` of a script, built from the lines it refers to.
fn make_line(
    t: EditTag,
    co: &Vec<String>,
    cn: &Vec<String>,
    i: usize,
    j: usize,
) -> (r: LineChange)
    requires
        t != EditTag::Insert ==> i < co@.len(),
        t != EditTag::Delete ==> j < cn@.len(),
        co@.len() < usize::MAX,
        cn@.len() < usize::MAX,
    ensures
        r@ == (match t {
            EditTag::Equal => LineView {
                kind: ChangeType::Context,
                old_num: Some(i + 1),
                new_num: Some(j + 1),
                content: co@[i as int]@,
            },
            EditTag::Delete => LineView {
                kind: ChangeType::Delete,
                old_num: Some(i + 1),
                new_num: None,
                content: co@[i as int]@,
            },
            EditTag::Insert => LineView {
                kind: ChangeType::Add,
                old_num: None,
                new_num: Some(j + 1),
                content: cn@[j as int]@,
            },
        }),
{
    match t {
        EditTag::Equal => LineChange {
            change_type: ChangeType::Context,
            old_line_num: Some(i + 1),
            new_line_num: Some(j + 1),
            content: co[i].clone(),
        },
        EditTag::Delete => LineChange {
            change_type: ChangeType::Delete,
            old_line_num: Some(i + 1),
            new_line_num: None,
            content: co[i].clone(),
        },
        EditTag::Insert => LineChange {
            change_type: ChangeType::Add,
            old_line_num: None,
            new_line_num: Some(j + 1),
            content: cn[j].clone(),
        },
    }
}

/// Every line of script `s` applied to `co` from index `s1` and to `cn` from index `s2`.
pub fn align_lines(s: &Vec<EditTag>, co: &Vec<String>, cn: &Vec<String>, s1: usize, s2: usize) -> (r:
    Vec<LineChange>)
    requires
        s1 + old_used(s@) <= co@.len(),
        s2 + new_used(s@) <= cn@.len(),
        co@.len() < usize::MAX,
        cn@.len() < usize::MAX,
    ensures
        line_views(r@) == stream_of(s@, string_views(co@), string_views(cn@), s1 as int, s2 as int),
{
    let ghost vo = string_views(co@);
    let ghost vn = string_views(cn@);
    let mut out: Vec<LineChange> = Vec::new();
    let mut i: usize = s1;
    let mut j: usize = s2;
    let mut k: usize = 0;
    while k < s.len()
        invariant
            k <= s@.len(),
            s1 + old_used(s@) <= co@.len(),
            s2 + new_used(s@) <= cn@.len(),
            co@.len() < usize::MAX,
            cn@.len() < usize::MAX,
            vo == string_views(co@),
            vn == string_views(cn@),
            i == s1 + old_used(s@.take(k as int)),
            j == s2 + new_used(s@.take(k as int)),
            line_views(out@) =~= stream_of(s@, vo, vn, s1 as int, s2 as int).take(k as int),
        decreases s@.len() - k,
    {
        let t = s[k];
        proof {
            lemma_take_step(s@, k as int);
            lemma_used_prefix(s@, k + 1);
        }
        let lc = make_line(t, co, cn, i, j);
        proof {
            assert(lc@ == line_at(s@, vo, vn, s1 as int, s2 as int, k as int));
            assert(line_views(out@.push(lc)) =~= line_views(out@).push(lc@));
        }
        out.push(lc);
        if t != EditTag::Insert {
            i = i + 1;
        }
        if t != EditTag::Delete {
            j = j + 1;
        }
        k = k + 1;
    }
    out
}


proof fn lemma_runs_step(s: Seq<EditTag>, k: int)
    requires
        0 <= k < s.len(),
    ensures
        ({
            let p = runs(s.take(k));
            let q = runs(s.take(k + 1));
            if s[k] == EditTag::Equal {
                q == p
            } else if k > 0 && s[k - 1] != EditTag::Equal {
                p.len() > 0 && q == p.update(p.len() - 1, (p.last().0, k + 1))
            } else {
                q == p.push((k, k + 1))
            }
        }),
        k > 0 && s[k - 1] != EditTag::Equal ==> runs(s.take(k)).len() > 0 && runs(
            s.take(k),
        ).last().1 == k,
    decreases k,
{
    lemma_take_step(s, k);
    if k > 0 {
        lemma_runs_step(s, k - 1);
    }
    let t1 = s.take(k + 1);
    let t0 = s.take(k);
    assert(t1.len() == k + 1);
    if k > 0 {
        assert(t1[k - 1] == s[k - 1]);
        lemma_take_step(s, k - 1);
        assert(t0.drop_last() == s.take(k - 1));
        assert(t0.last() == s[k - 1]);
        if k > 1 {
            assert(t0[k - 2] == s[k - 2]);
        }
        let pp = runs(s.take(k - 1));
        if s[k - 1] != EditTag::Equal {
            if k > 1 && s[k - 2] != EditTag::Equal {
                assert(runs(t0) == pp.update(pp.len() - 1, (pp.last().0, k)));
                assert(runs(t0).last().1 == k);
            } else {
                assert(runs(t0) == pp.push((k - 1, k)));
            }
        }
    }
    assert(runs(t1) == if t1.last() == EditTag::Equal {
        runs(t0)
    } else if k > 0 && t1[k - 1] != EditTag::Equal {
        runs(t0).update(runs(t0).len() - 1, (runs(t0).last().0, k + 1))
    } else {
        runs(t0).push((k, k + 1))
    });
}

/// Whether `h` is the hunk of run `r` of `s`.
pub open spec fn hunk_matches(
    h: Hunk,
    s: Seq<EditTag>,
    co: Seq<Seq<char>>,
    cn: Seq<Seq<char>>,
    s1: int,
    s2: int,
    r: (int, int),
) -> bool {
    h@ == hunk_at(s, co, cn, s1, s2, r.0, r.1)
}

/// Groups script `s`, applied to `co` from index `s1` and to `cn` from index `s2`, into
/// hunks: one for each maximal run of changes, without the kept lines around it.
pub fn group_hunks(s: &Vec<EditTag>, co: &Vec<String>, cn: &Vec<String>, s1: usize, s2: usize) -> (r:
    Vec<Hunk>)
    requires
        s1 + old_used(s@) <= co@.len(),
        s2 + new_used(s@) <= cn@.len(),
        co@.len() < usize::MAX,
        cn@.len() < usize::MAX,
    ensures
        hunk_views(r@) == hunks_of(s@, string_views(co@), string_views(cn@), s1 as int, s2 as int),
{
    let ghost vo = string_views(co@);
    let ghost vn = string_views(cn@);
    let mut out: Vec<Hunk> = Vec::new();
    let mut cur = Hunk { old_start: 0, old_count: 0, new_start: 0, new_count: 0, lines: Vec::new() };
    let mut has_cur = false;
    let mut base_o: usize = s1;
    let mut base_n: usize = s2;
    let mut i: usize = s1;
    let mut j: usize = s2;
    let mut k: usize = 0;
    while k < s.len()
        invariant
            k <= s@.len(),
            s1 + old_used(s@) <= co@.len(),
            s2 + new_used(s@) <= cn@.len(),
            co@.len() < usize::MAX,
            cn@.len() < usize::MAX,
            vo == string_views(co@),
            vn == string_views(cn@),
            i == s1 + old_used(s@.take(k as int)),
            j == s2 + new_used(s@.take(k as int)),
            has_cur == (k > 0 && s@[k - 1] != EditTag::Equal),
            out@.len() + (if has_cur {
                1int
            } else {
                0int
            }) == runs(s@.take(k as int)).len(),
            forall|h: int|
                0 <= h < out@.len() ==> hunk_matches(
                    #[trigger] out@[h],
                    s@,
                    vo,
                    vn,
                    s1 as int,
                    s2 as int,
                    runs(s@.take(k as int))[h],
                ),
            has_cur ==> hunk_matches(
                cur,
                s@,
                vo,
                vn,
                s1 as int,
                s2 as int,
                runs(s@.take(k as int)).last(),
            ),
            has_cur ==> runs(s@.take(k as int)).last().1 == k,
            has_cur ==> 0 <= runs(s@.take(k as int)).last().0 < k,
            has_cur ==> base_o == s1 + old_used(s@.take(runs(s@.take(k as int)).last().0)),
            has_cur ==> base_n == s2 + new_used(s@.take(runs(s@.take(k as int)).last().0)),
        decreases s@.len() - k,
    {
        let t = s[k];
        proof {
            lemma_take_step(s@, k as int);
            lemma_used_prefix(s@, k + 1);
            lemma_runs_step(s@, k as int);
        }
        let ghost p = runs(s@.take(k as int));
        let ghost q = runs(s@.take(k + 1));
        if t == EditTag::Equal {
            if has_cur {
                out.push(cur);
                cur = Hunk { old_start: 0, old_count: 0, new_start: 0, new_count: 0, lines: Vec::new() };
                has_cur = false;
            }
            assert(q == p);
        } else {
            let lc = make_line(t, co, cn, i, j);
            assert(lc@ == line_at(s@, vo, vn, s1 as int, s2 as int, k as int));
            if has_cur {
                let ghost a = p.last().0;
                proof {
                    lemma_subrange_step(s@, a, k as int);
                    lemma_used_bounds(s@.subrange(a, k + 1));
                    assert(line_views(cur.lines@.push(lc)) =~= line_views(cur.lines@).push(lc@));
                }
                let ghost before = cur@;
                cur.lines.push(lc);
                if t == EditTag::Delete {
                    cur.old_count = cur.old_count + 1;
                } else {
                    cur.new_count = cur.new_count + 1;
                }
                proof {
                    lemma_used_prefix(s@.take(k as int), a);
                    assert(s@.take(k as int).take(a) =~= s@.take(a));
                }
                cur.old_start = if cur.old_count > 0 { base_o + 1 } else { base_o };
                cur.new_start = if cur.new_count > 0 { base_n + 1 } else { base_n };
                proof {
                    assert(cur@.lines =~= hunk_at(s@, vo, vn, s1 as int, s2 as int, a, k + 1).lines);
                    assert(q.last() == (a, k + 1));
                    assert forall|h: int| 0 <= h < out@.len() implies hunk_matches(
                        #[trigger] out@[h],
                        s@,
                        vo,
                        vn,
                        s1 as int,
                        s2 as int,
                        q[h],
                    ) by {
                        assert(q[h] == p[h]);
                    }
                }
            } else {
                let mut lines: Vec<LineChange> = Vec::new();
                lines.push(lc);
                let oc: usize = if t == EditTag::Delete { 1 } else { 0 };
                let nc: usize = if t == EditTag::Insert { 1 } else { 0 };
                proof {
                    assert(s@.subrange(k as int, k as int) =~= Seq::<EditTag>::empty());
                    lemma_subrange_step(s@, k as int, k as int);
                }
                base_o = i;
                base_n = j;
                cur = Hunk {
                    old_start: if oc > 0 { i + 1 } else { i },
                    old_count: oc,
                    new_start: if nc > 0 { j + 1 } else { j },
                    new_count: nc,
                    lines,
                };
                has_cur = true;
                proof {
                    assert(cur@.lines =~= hunk_at(s@, vo, vn, s1 as int, s2 as int, k as int, k + 1).lines);
                    assert forall|h: int| 0 <= h < out@.len() implies hunk_matches(
                        #[trigger] out@[h],
                        s@,
                        vo,
                        vn,
                        s1 as int,
                        s2 as int,
                        q[h],
                    ) by {
                        assert(q[h] == p[h]);
                    }
                }
            }
        }
        if t != EditTag::Insert {
            i = i + 1;
        }
        if t != EditTag::Delete {
            j = j + 1;
        }
        k = k + 1;
    }
    if has_cur {
        out.push(cur);
    }
    proof {
        assert(s@.take(s@.len() as int) =~= s@);
        assert(hunk_views(out@) =~= hunks_of(s@, vo, vn, s1 as int, s2 as int));
    }
    out
}


/// The old-side projection of a line stream: the text of its kept and removed lines.
pub open spec fn old_side(s: Seq<LineView>) -> Seq<Seq<char>>
    decreases s.len(),
{
    if s.len() == 0 {
        seq![]
    } else if s.last().kind == ChangeType::Context || s.last().kind == ChangeType::Delete {
        old_side(s.drop_last()).push(s.last().content)
    } else {
        old_side(s.drop_last())
    }
}

/// The new-side projection of a line stream: the text of its kept and added lines.
pub open spec fn new_side(s: Seq<LineView>) -> Seq<Seq<char>>
    decreases s.len(),
{
    if s.len() == 0 {
        seq![]
    } else if s.last().kind == ChangeType::Context || s.last().kind == ChangeType::Add {
        new_side(s.drop_last()).push(s.last().content)
    } else {
        new_side(s.drop_last())
    }
}

/// Whether equal keys of `ka` and `kb` always belong to equal lines of `a` and `b`.
pub open spec fn keys_faithful(a: Seq<Seq<char>>, b: Seq<Seq<char>>, ka: Seq<Seq<u8>>, kb: Seq<Seq<u8>>) -> bool {
    forall|i: int, j: int|
        0 <= i < a.len() && 0 <= j < b.len() && #[trigger] ka[i] == #[trigger] kb[j] ==> a[i] == b[j]
}

/// Lines compared without folding case or whitespace have faithful keys.
pub proof fn lemma_plain_keys_faithful(opts: DiffOptions, a: Seq<Seq<char>>, b: Seq<Seq<char>>)
    requires
        !opts.ignore_case,
        !opts.ignore_whitespace,
    ensures
        keys_faithful(a, b, keys_of(opts, a), keys_of(opts, b)),
{
    assert forall|i: int, j: int|
        0 <= i < a.len() && 0 <= j < b.len() && #[trigger] keys_of(opts, a)[i] == #[trigger] keys_of(
            opts,
            b,
        )[j] implies a[i] == b[j] by {
        vstd::utf8::encode_utf8_decode_utf8(a[i]);
        vstd::utf8::encode_utf8_decode_utf8(b[j]);
    }
}

/// Whether every pair that script `s` keeps is a pair of equal lines.
#[verifier::opaque]
pub open spec fn pairs_equal_lines(s: Seq<EditTag>, a: Seq<Seq<char>>, b: Seq<Seq<char>>) -> bool {
    forall|k: int|
        0 <= k < s.len() && #[trigger] s[k] == EditTag::Equal ==> a[old_used(s.take(k))] == b[new_used(
            s.take(k),
        )]
}

/// The first `k` lines of the stream of a script project, on the old side, onto the
/// old lines that the script's first `k` steps consume.
proof fn lemma_stream_old_side(s: Seq<EditTag>, a: Seq<Seq<char>>, b: Seq<Seq<char>>, k: int)
    requires
        old_used(s) == a.len(),
        0 <= k <= s.len(),
    ensures
        old_side(stream_of(s, a, b, 0, 0).take(k)) == a.take(old_used(s.take(k))),
    decreases k,
{
    let st = stream_of(s, a, b, 0, 0);
    if k == 0 {
        assert(st.take(0) =~= Seq::<LineView>::empty());
        assert(s.take(0) =~= Seq::<EditTag>::empty());
        assert(a.take(0) =~= Seq::<Seq<char>>::empty());
    } else {
        lemma_stream_old_side(s, a, b, k - 1);
        lemma_take_step(s, k - 1);
        lemma_used_prefix(s, k);
        lemma_used_prefix(s, k - 1);
        let prev = st.take(k - 1);
        let cur = st.take(k);
        assert(cur.drop_last() =~= prev);
        let i = old_used(s.take(k - 1));
        let l = line_at(s, a, b, 0, 0, k - 1);
        assert(cur.last() == l);
        if s[k - 1] != EditTag::Insert {
            assert(old_used(s.take(k)) == i + 1);
            assert(0 <= i && i + 1 <= a.len());
            assert(l.content == a[i]);
            assert(old_side(cur) == old_side(prev).push(a[i]));
            assert(a.take(i + 1) =~= a.take(i).push(a[i]));
        } else {
            assert(old_side(cur) == old_side(prev));
        }
    }
}

/// The first `k` lines of the stream of a script project, on the new side, onto the
/// new lines that the script's first `k` steps consume, where equal keys mean equal
/// lines.
#[verifier::rlimit(40)]
proof fn lemma_stream_new_side(s: Seq<EditTag>, a: Seq<Seq<char>>, b: Seq<Seq<char>>, k: int)
    requires
        new_used(s) == b.len(),
        pairs_equal_lines(s, a, b),
        0 <= k <= s.len(),
    ensures
        new_side(stream_of(s, a, b, 0, 0).take(k)) == b.take(new_used(s.take(k))),
    decreases k,
{
    let st = stream_of(s, a, b, 0, 0);
    if k == 0 {
        assert(st.take(0) =~= Seq::<LineView>::empty());
        assert(s.take(0) =~= Seq::<EditTag>::empty());
        assert(b.take(0) =~= Seq::<Seq<char>>::empty());
    } else {
        lemma_stream_new_side(s, a, b, k - 1);
        lemma_take_step(s, k - 1);
        lemma_used_prefix(s, k);
        lemma_used_prefix(s, k - 1);
        let prev = st.take(k - 1);
        let cur = st.take(k);
        assert(cur.drop_last() =~= prev);
        let i = old_used(s.take(k - 1));
        let j = new_used(s.take(k - 1));
        let l = line_at(s, a, b, 0, 0, k - 1);
        assert(cur.last() == l);
        if s[k - 1] == EditTag::Equal {
            assert(a[i] == b[j]) by {
                reveal(pairs_equal_lines);
            }
        }
        if s[k - 1] != EditTag::Delete {
            assert(new_used(s.take(k)) == j + 1);
            assert(0 <= j && j + 1 <= b.len());
            assert(l.content == b[j]);
            assert(new_side(cur) == new_side(prev).push(b[j]));
            assert(b.take(j + 1) =~= b.take(j).push(b[j]));
        } else {
            assert(new_side(cur) == new_side(prev));
        }
    }
}

/// Where equal keys mean equal lines, a script between the keys keeps only pairs of
/// equal lines.
proof fn lemma_faithful_pairs(s: Seq<EditTag>, a: Seq<Seq<char>>, b: Seq<Seq<char>>, ka: Seq<Seq<u8>>, kb: Seq<Seq<u8>>)
    requires
        is_script(s, ka, kb),
        ka.len() == a.len(),
        kb.len() == b.len(),
        keys_faithful(a, b, ka, kb),
    ensures
        pairs_equal_lines(s, a, b),
{
    reveal(pairs_equal_lines);
    assert forall|k: int| 0 <= k < s.len() && #[trigger] s[k] == EditTag::Equal implies a[old_used(
        s.take(k),
    )] == b[new_used(s.take(k))] by {
        lemma_take_step(s, k);
        lemma_used_prefix(s, k + 1);
        lemma_used_prefix(s, k);
        let i = old_used(s.take(k));
        let j = new_used(s.take(k));
        assert(0 <= i < a.len());
        assert(0 <= j < b.len());
        assert(ka[i] == kb[j]);
    }
}

/// The stream of a script reconstructs the old lines on its old side, and, where equal
/// keys mean equal lines, the new lines on its new side.
#[verifier::rlimit(40)]
pub proof fn lemma_stream_reconstructs(
    s: Seq<EditTag>,
    a: Seq<Seq<char>>,
    b: Seq<Seq<char>>,
    ka: Seq<Seq<u8>>,
    kb: Seq<Seq<u8>>,
)
    requires
        is_script(s, ka, kb),
        ka.len() == a.len(),
        kb.len() == b.len(),
    ensures
        old_side(stream_of(s, a, b, 0, 0)) == a,
        keys_faithful(a, b, ka, kb) ==> new_side(stream_of(s, a, b, 0, 0)) == b,
{
    lemma_stream_old_side(s, a, b, s.len() as int);
    if keys_faithful(a, b, ka, kb) {
        lemma_faithful_pairs(s, a, b, ka, kb);
        lemma_stream_new_side(s, a, b, s.len() as int);
    }
    let st = stream_of(s, a, b, 0, 0);
    assert(st.take(s.len() as int) =~= st);
    assert(s.take(s.len() as int) =~= s);
    assert(a.take(a.len() as int) =~= a);
    assert(b.take(b.len() as int) =~= b);
}


/// A script that keeps every line has no run of changes.
pub proof fn lemma_runs_all_equal(n: int)
    requires
        n >= 0,
    ensures
        runs(all_equal(n)).len() == 0,
    decreases n,
{
    if n > 0 {
        assert(all_equal(n).drop_last() =~= all_equal(n - 1));
        lemma_runs_all_equal(n - 1);
    }
}

/// The number of times `c` occurs in `xs`.
pub open spec fn occurrences(xs: Seq<Seq<char>>, c: Seq<char>) -> int
    decreases xs.len(),
{
    if xs.len() == 0 {
        0
    } else {
        occurrences(xs.drop_last(), c) + if xs.last() == c {
            1int
        } else {
            0int
        }
    }
}

/// The number of lines of kind `k` with text `c` in `s`.
pub open spec fn kind_occurrences(s: Seq<LineView>, k: ChangeType, c: Seq<char>) -> int
    decreases s.len(),
{
    if s.len() == 0 {
        0
    } else {
        kind_occurrences(s.drop_last(), k, c) + if s.last().kind == k && s.last().content == c {
            1int
        } else {
            0int
        }
    }
}

proof fn lemma_side_occurrences(s: Seq<LineView>, c: Seq<char>)
    ensures
        occurrences(old_side(s), c) == kind_occurrences(s, ChangeType::Context, c) + kind_occurrences(
            s,
            ChangeType::Delete,
            c,
        ),
        occurrences(new_side(s), c) == kind_occurrences(s, ChangeType::Context, c) + kind_occurrences(
            s,
            ChangeType::Add,
            c,
        ),
    decreases s.len(),
{
    if s.len() > 0 {
        lemma_side_occurrences(s.drop_last(), c);
        let l = s.last();
        if l.kind == ChangeType::Context || l.kind == ChangeType::Delete {
            assert(old_side(s).drop_last() =~= old_side(s.drop_last()));
        }
        if l.kind == ChangeType::Context || l.kind == ChangeType::Add {
            assert(new_side(s).drop_last() =~= new_side(s.drop_last()));
        }
    }
}

/// Aligning `a` with `b`, and `b` with `a` then reading the result backwards (added
/// lines as removed and removed as added), change every line text by the same net
/// amount: added minus removed occurrences agree for each text `c`.
pub proof fn lemma_net_change_symmetric(
    forward: Seq<LineView>,
    backward: Seq<LineView>,
    a: Seq<Seq<char>>,
    b: Seq<Seq<char>>,
    c: Seq<char>,
)
    requires
        old_side(forward) == a,
        new_side(forward) == b,
        old_side(backward) == b,
        new_side(backward) == a,
    ensures
        kind_occurrences(forward, ChangeType::Add, c) - kind_occurrences(forward, ChangeType::Delete, c)
            == kind_occurrences(backward, ChangeType::Delete, c) - kind_occurrences(
            backward,
            ChangeType::Add,
            c,
        ),
{
    lemma_side_occurrences(forward, c);
    lemma_side_occurrences(backward, c);
}


/// Every run of changes lies within its script and holds changes only.
pub proof fn lemma_runs_are_changes(s: Seq<EditTag>)
    ensures
        forall|h: int|
            0 <= h < runs(s).len() ==> 0 <= (#[trigger] runs(s)[h]).0 < runs(s)[h].1 <= s.len(),
        forall|h: int, k: int|
            0 <= h < runs(s).len() && runs(s)[h].0 <= k < runs(s)[h].1 ==> #[trigger] s[k] != EditTag::Equal
                && #[trigger] runs(s)[h] == runs(s)[h],
        forall|h1: int, h2: int|
            0 <= h1 < h2 < runs(s).len() ==> (#[trigger] runs(s)[h1]).1 < (#[trigger] runs(s)[h2]).0,
    decreases s.len(),
{
    if s.len() > 0 {
        let p = runs(s.drop_last());
        let n = s.len() - 1;
        lemma_runs_are_changes(s.drop_last());
        assert forall|k: int| 0 <= k < n implies s.drop_last()[k] == s[k] by {}
        if s.last() != EditTag::Equal && n > 0 && s[n - 1] != EditTag::Equal {
            assert(s.drop_last().last() == s[n - 1]);
            lemma_runs_step_nonempty(s.drop_last());
            lemma_runs_step(s, n);
            assert(s.take(n) =~= s.drop_last());
            assert(p.last().1 == n);
            let q = p.update(p.len() - 1, (p.last().0, n + 1));
            assert(runs(s) == q);
            assert forall|h: int| 0 <= h < q.len() implies 0 <= (#[trigger] q[h]).0 < q[h].1 <= s.len() by {
                if h < p.len() - 1 {
                    assert(q[h] == p[h]);
                }
            }
            assert forall|h1: int, h2: int| 0 <= h1 < h2 < q.len() implies (#[trigger] q[h1]).1 < (
            #[trigger] q[h2]).0 by {
                assert(q[h1] == p[h1]);
                assert(q[h2].0 == p[h2].0);
            }
            assert forall|h: int, k: int| 0 <= h < q.len() && q[h].0 <= k < q[h].1 implies #[trigger] s[k]
                != EditTag::Equal && #[trigger] q[h] == q[h] by {
                if h < p.len() - 1 {
                    assert(q[h] == p[h]);
                    assert(s.drop_last()[k] == s[k]);
                } else if k < n {
                    assert(p[h].0 <= k < p[h].1);
                    assert(s.drop_last()[k] == s[k]);
                }
            }
        } else if s.last() != EditTag::Equal {
            let q = p.push((n, n + 1));
            assert(runs(s) == q);
            assert forall|h: int| 0 <= h < q.len() implies 0 <= (#[trigger] q[h]).0 < q[h].1 <= s.len() by {
                if h < p.len() {
                    assert(q[h] == p[h]);
                }
            }
            assert forall|h1: int, h2: int| 0 <= h1 < h2 < q.len() implies (#[trigger] q[h1]).1 < (
            #[trigger] q[h2]).0 by {
                assert(q[h1] == p[h1]);
                if h2 == p.len() {
                    if p[h1].1 == n {
                        assert(p[h1].0 <= n - 1 < p[h1].1);
                        assert(s.drop_last()[n - 1] != EditTag::Equal && p[h1] == p[h1]);
                    }
                } else {
                    assert(q[h2] == p[h2]);
                }
            }
            assert forall|h: int, k: int| 0 <= h < q.len() && q[h].0 <= k < q[h].1 implies #[trigger] s[k]
                != EditTag::Equal && #[trigger] q[h] == q[h] by {
                if h < p.len() {
                    assert(q[h] == p[h]);
                    assert(s.drop_last()[k] == s[k]);
                }
            }
        } else {
            assert forall|h: int, k: int| 0 <= h < p.len() && p[h].0 <= k < p[h].1 implies #[trigger] s[k]
                != EditTag::Equal && #[trigger] p[h] == p[h] by {
                assert(s.drop_last()[k] == s[k]);
            }
        }
    }
}

proof fn lemma_runs_step_nonempty(s: Seq<EditTag>)
    requires
        s.len() > 0,
        s.last() != EditTag::Equal,
    ensures
        runs(s).len() > 0,
    decreases s.len(),
{
    let n = s.len() - 1;
    if n > 0 && s[n - 1] != EditTag::Equal {
        assert(s.drop_last().last() == s[n - 1]);
        lemma_runs_step_nonempty(s.drop_last());
    }
}

/// Each line of each hunk of a whole-file script is a removed or an added line of the
/// script: a removed line carries old line number `i + 1` and the text of old line `i`,
/// an added line new line number `j + 1` and the text of new line `j`, where `i` and `j`
/// count the old and new lines that the script consumed before it.
pub proof fn lemma_hunk_line_origin(
    s: Seq<EditTag>,
    a: Seq<Seq<char>>,
    b: Seq<Seq<char>>,
    ka: Seq<Seq<u8>>,
    kb: Seq<Seq<u8>>,
    h: int,
    t: int,
)
    requires
        is_script(s, ka, kb),
        ka.len() == a.len(),
        kb.len() == b.len(),
        0 <= h < hunks_of(s, a, b, 0, 0).len(),
        0 <= t < hunks_of(s, a, b, 0, 0)[h].lines.len(),
    ensures
        ({
            let k = runs(s)[h].0 + t;
            let l = hunks_of(s, a, b, 0, 0)[h].lines[t];
            let i = old_used(s.take(k));
            let j = new_used(s.take(k));
            &&& 0 <= k < s.len()
            &&& l == line_at(s, a, b, 0, 0, k)
            &&& l.kind == ChangeType::Delete || l.kind == ChangeType::Add
            &&& l.kind == ChangeType::Delete ==> 0 <= i < a.len() && l.old_num == Some(i + 1) && l.new_num
                is None && l.content == a[i]
            &&& l.kind == ChangeType::Add ==> 0 <= j < b.len() && l.new_num == Some(j + 1) && l.old_num
                is None && l.content == b[j]
        }),
{
    lemma_runs_are_changes(s);
    let r = runs(s)[h];
    let k = r.0 + t;
    assert(hunks_of(s, a, b, 0, 0)[h] == hunk_at(s, a, b, 0, 0, r.0, r.1));
    assert(r.0 <= k < r.1);
    assert(s[k] != EditTag::Equal && runs(s)[h] == runs(s)[h]);
    lemma_take_step(s, k);
    lemma_used_prefix(s, k + 1);
    lemma_used_prefix(s, k);
}

/// Old line numbers grow along a script: a step that consumes an old line comes before
/// every old line that a later step consumes; likewise on the new side.
pub proof fn lemma_numbers_increase(s: Seq<EditTag>, k1: int, k2: int)
    requires
        0 <= k1 < k2 <= s.len(),
    ensures
        s[k1] != EditTag::Insert ==> old_used(s.take(k1)) < old_used(s.take(k2)),
        s[k1] != EditTag::Delete ==> new_used(s.take(k1)) < new_used(s.take(k2)),
{
    lemma_take_step(s, k1);
    lemma_used_prefix(s.take(k2), k1 + 1);
    assert(s.take(k2).take(k1 + 1) =~= s.take(k1 + 1));
}

} // verus!
