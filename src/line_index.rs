//! Line boundaries of a byte buffer, found in one forward scan.

use memmap2::Mmap;
use vstd::prelude::*;
use vstd::slice::slice_subrange;
use vstd::utf8::{decode_utf8, is_char_boundary, is_char_boundary_iff_not_is_continuation_byte, valid_utf8, valid_utf8_split};

use crate::types::DiffError;

verus! {

/// The newline byte.
pub const NEWLINE: u8 = 10;

/// The carriage-return byte.
pub const CARRIAGE_RETURN: u8 = 13;

/// Relies on `memchr::memchr`: the index of the first occurrence of `needle`, or `None`.
pub assume_specification[ memchr::memchr ](needle: u8, haystack: &[u8]) -> (r: Option<usize>)
    ensures
        match r {
            Some(i) => i < haystack@.len() && haystack@[i as int] == needle && forall|j: int|
                0 <= j < i ==> haystack@[j] != needle,
            None => forall|j: int| 0 <= j < haystack@.len() ==> haystack@[j] != needle,
        },
;

/// Positions just after each newline of `data`, in increasing order.
pub open spec fn newline_ends(data: Seq<u8>) -> Seq<int>
    decreases data.len(),
{
    if data.len() == 0 {
        seq![]
    } else {
        let p = newline_ends(data.drop_last());
        if data.last() == NEWLINE {
            p.push(data.len() as int)
        } else {
            p
        }
    }
}

/// The offset at which each line starts: 0, then one past every newline.
pub open spec fn line_starts(data: Seq<u8>) -> Seq<int> {
    seq![0int] + newline_ends(data)
}

/// The number of lines, counting the empty line after a final newline.
pub open spec fn line_total(data: Seq<u8>) -> int {
    line_starts(data).len() as int
}

/// The bytes of line `k`, without its newline.
pub open spec fn line_bytes(data: Seq<u8>, k: int) -> Seq<u8> {
    let st = line_starts(data);
    let end = if k + 1 < st.len() {
        st[k + 1] - 1
    } else {
        data.len() as int
    };
    data.subrange(st[k], end)
}

pub open spec fn usize_ints(s: Seq<usize>) -> Seq<int> {
    s.map_values(|x: usize| x as int)
}

proof fn lemma_newline_ends_bounds(data: Seq<u8>)
    ensures
        forall|k: int|
            0 <= k < newline_ends(data).len() ==> 1 <= #[trigger] newline_ends(data)[k]
                <= data.len() && data[newline_ends(data)[k] - 1] == NEWLINE,
        forall|k: int, l: int|
            0 <= k < l < newline_ends(data).len() ==> newline_ends(data)[k]
                < newline_ends(data)[l],
        newline_ends(data).len() <= data.len(),
    decreases data.len(),
{
    if data.len() > 0 {
        lemma_newline_ends_bounds(data.drop_last());
    }
}

/// Line starts are increasing, start at 0 and stay within the buffer; every line
/// but the last ends just before a newline.
pub proof fn lemma_line_starts(data: Seq<u8>)
    ensures
        line_starts(data).len() >= 1,
        line_starts(data)[0] == 0,
        line_starts(data).len() <= data.len() + 1,
        forall|k: int|
            0 <= k < line_starts(data).len() ==> 0 <= #[trigger] line_starts(data)[k]
                <= data.len(),
        forall|k: int|
            1 <= k < line_starts(data).len() ==> data[#[trigger] line_starts(data)[k] - 1]
                == NEWLINE,
        forall|k: int, l: int|
            0 <= k < l < line_starts(data).len() ==> line_starts(data)[k] < line_starts(
                data,
            )[l],
        forall|k: int| 0 <= k < line_starts(data).len() ==> k <= #[trigger] line_starts(data)[k],
{
    lemma_newline_ends_bounds(data);
    let st = line_starts(data);
    let ne = newline_ends(data);
    assert forall|k: int| 1 <= k < st.len() implies st[k] == ne[k - 1] by {}
    assert forall|k: int, l: int| 0 <= k < l < st.len() implies st[k] < st[l] by {
        if k > 0 {
            assert(st[k] == ne[k - 1]);
        }
        assert(st[l] == ne[l - 1]);
    }
    assert forall|k: int| 0 <= k < st.len() implies k <= #[trigger] st[k] by {
        lemma_starts_grow(st, k);
    }
}

proof fn lemma_starts_grow(st: Seq<int>, k: int)
    requires
        0 <= k < st.len(),
        st[0] == 0,
        forall|a: int, b: int| 0 <= a < b < st.len() ==> st[a] < st[b],
    ensures
        k <= st[k],
    decreases k,
{
    if k > 0 {
        lemma_starts_grow(st, k - 1);
        assert(st[k - 1] < st[k]);
    }
}

proof fn lemma_newline_ends_no_newline(data: Seq<u8>, a: int, b: int)
    requires
        0 <= a <= b <= data.len(),
        forall|j: int| a <= j < b ==> data[j] != NEWLINE,
    ensures
        newline_ends(data.take(b)) == newline_ends(data.take(a)),
    decreases b - a,
{
    if b > a {
        lemma_newline_ends_no_newline(data, a, b - 1);
        assert(data.take(b).drop_last() =~= data.take(b - 1));
    }
}

proof fn lemma_newline_ends_step(data: Seq<u8>, b: int)
    requires
        0 < b <= data.len(),
        data[b - 1] == NEWLINE,
    ensures
        newline_ends(data.take(b)) == newline_ends(data.take(b - 1)).push(b),
{
    assert(data.take(b).drop_last() =~= data.take(b - 1));
}

/// The offset of every line start of `data`, found with one forward scan for newlines.
pub fn calculate_line_offsets(data: &[u8]) -> (r: Vec<usize>)
    ensures
        usize_ints(r@) == line_starts(data@),
{
    let mut offsets: Vec<usize> = Vec::new();
    offsets.push(0);
    let mut pos: usize = 0;
    let n = data.len();
    proof {
        assert(data@.take(0) =~= seq![]);
        assert(usize_ints(offsets@) =~= seq![0int] + newline_ends(data@.take(0)));
    }
    while pos < n
        invariant
            pos <= n,
            n == data@.len(),
            usize_ints(offsets@) == seq![0int] + newline_ends(data@.take(pos as int)),
        decreases n - pos,
    {
        let rest = slice_subrange(data, pos, n);
        match memchr::memchr(NEWLINE, rest) {
            Some(i) => {
                let next = pos + i + 1;
                proof {
                    assert forall|j: int| pos <= j < pos + i implies data@[j] != NEWLINE by {
                        assert(rest@[j - pos] == data@[j]);
                    }
                    assert(rest@[i as int] == data@[pos + i]);
                    lemma_newline_ends_no_newline(data@, pos as int, pos + i);
                    lemma_newline_ends_step(data@, next as int);
                    assert(usize_ints(offsets@.push(next)) =~= usize_ints(offsets@).push(
                        next as int,
                    ));
                }
                offsets.push(next);
                pos = next;
            },
            None => {
                proof {
                    assert forall|j: int| pos <= j < n implies data@[j] != NEWLINE by {
                        assert(rest@[j - pos] == data@[j]);
                    }
                    lemma_newline_ends_no_newline(data@, pos as int, n as int);
                }
                pos = n;
            },
        }
    }
    proof {
        assert(data@.take(n as int) =~= data@);
    }
    offsets
}


/// The bytes of line `k` given the offsets of `data`'s line starts.
fn line_slice<'a>(data: &'a [u8], offsets: &Vec<usize>, k: usize) -> (r: &'a [u8])
    requires
        usize_ints(offsets@) == line_starts(data@),
        k < offsets@.len(),
    ensures
        r@ == line_bytes(data@, k as int),
{
    proof {
        lemma_line_starts(data@);
        assert(offsets@[k as int] as int == line_starts(data@)[k as int]);
    }
    let start = offsets[k];
    let end = if k < offsets.len() - 1 {
        proof {
            assert(offsets@[k + 1] as int == line_starts(data@)[k + 1]);
        }
        offsets[k + 1] - 1
    } else {
        data.len()
    };
    slice_subrange(data, start, end)
}

/// Relies on `std::str::from_utf8`: the text that the bytes encode, exactly when they are
/// valid UTF-8.
#[verifier::external_body]
fn decode(bytes: &[u8]) -> (r: Option<&str>)
    ensures
        r is Some <==> valid_utf8(bytes@),
        r matches Some(s) ==> s@ == decode_utf8(bytes@),
{
    std::str::from_utf8(bytes).ok()
}

pub open spec fn string_views(s: Seq<String>) -> Seq<Seq<char>> {
    s.map_values(|x: String| x@)
}

/// Lines `start..start + count` clipped to `0..n`, as a range `lo..hi`.
pub open spec fn clipped_range(start: int, count: int, n: int) -> (int, int) {
    let hi = if start + count < n {
        start + count
    } else {
        n
    };
    if start < hi {
        (start, hi)
    } else {
        (hi, hi)
    }
}

/// Whether lines `lo..hi` of `data` are all valid UTF-8.
pub open spec fn range_valid(data: Seq<u8>, lo: int, hi: int) -> bool {
    forall|k: int| lo <= k < hi ==> valid_utf8(#[trigger] line_bytes(data, k))
}

/// Lines `lo..hi` of `data`, decoded.
pub open spec fn decoded_range(data: Seq<u8>, lo: int, hi: int) -> Seq<Seq<char>> {
    Seq::new((hi - lo) as nat, |k: int| decode_utf8(line_bytes(data, lo + k)))
}

/// The number of lines of a text: a final newline ends the last line rather than
/// starting an empty one.
pub open spec fn text_line_total(data: Seq<u8>) -> int {
    if line_bytes(data, line_total(data) - 1).len() == 0 {
        line_total(data) - 1
    } else {
        line_total(data)
    }
}

/// The bytes of line `k` of a text, without a carriage return before its newline.
pub open spec fn text_line_bytes(data: Seq<u8>, k: int) -> Seq<u8> {
    let b = line_bytes(data, k);
    if k + 1 < line_total(data) && b.len() > 0 && b.last() == CARRIAGE_RETURN {
        b.drop_last()
    } else {
        b
    }
}

/// Whether every line of the text `data` is valid UTF-8.
pub open spec fn text_lines_valid(data: Seq<u8>) -> bool {
    forall|k: int| 0 <= k < text_line_total(data) ==> valid_utf8(#[trigger] text_line_bytes(data, k))
}

/// Every line of the text `data`, decoded.
pub open spec fn decoded_text_lines(data: Seq<u8>) -> Seq<Seq<char>> {
    Seq::new(text_line_total(data) as nat, |k: int| decode_utf8(text_line_bytes(data, k)))
}

/// The message carried by an encoding failure.
fn encoding_message() -> String {
    "line is not valid UTF-8".to_owned()
}

/// Splits a text into lines: at each newline, dropping a carriage return before it,
/// with no empty line after a final newline. Fails if a line is not valid UTF-8.
pub fn text_lines(data: &[u8]) -> (r: Result<Vec<String>, DiffError>)
    ensures
        r is Ok <==> text_lines_valid(data@),
        r matches Ok(v) ==> string_views(v@) == decoded_text_lines(data@),
        r matches Ok(v) ==> v@.len() <= data@.len(),
        r matches Err(e) ==> e is EncodingError,
{
    let offsets = calculate_line_offsets(data);
    proof {
        lemma_line_starts(data@);
    }
    let total = offsets.len();
    let last = line_slice(data, &offsets, total - 1);
    let count = if last.len() == 0 {
        total - 1
    } else {
        total
    };
    assert(count == text_line_total(data@));
    proof {
        let st = line_starts(data@);
        if count == total {
            assert(line_bytes(data@, total - 1).len() > 0);
            assert(total - 1 <= st[total - 1]);
        }
    }
    let mut out: Vec<String> = Vec::new();
    let mut k: usize = 0;
    while k < count
        invariant
            count == text_line_total(data@),
            count <= total,
            total == offsets@.len(),
            total == line_total(data@),
            usize_ints(offsets@) == line_starts(data@),
            k <= count,
            string_views(out@) =~= decoded_text_lines(data@).take(k as int),
            forall|j: int| 0 <= j < k ==> valid_utf8(#[trigger] text_line_bytes(data@, j)),
        decreases count - k,
    {
        let line = line_slice(data, &offsets, k);
        let piece = if k + 1 < total && line.len() > 0 && line[line.len() - 1] == CARRIAGE_RETURN {
            slice_subrange(line, 0, line.len() - 1)
        } else {
            line
        };
        proof {
            assert(piece@ =~= text_line_bytes(data@, k as int));
        }
        match decode(piece) {
            Some(s) => {
                let owned = s.to_owned();
                proof {
                    assert(string_views(out@.push(owned)) =~= string_views(out@).push(owned@));
                }
                out.push(owned);
            },
            None => {
                return Err(DiffError::EncodingError(encoding_message()));
            },
        }
        k = k + 1;
    }
    assert(decoded_text_lines(data@).take(count as int) =~= decoded_text_lines(data@));
    Ok(out)
}


#[verifier::external_type_specification]
#[verifier::external_body]
pub struct ExMmap(Mmap);

/// The bytes that a read-only map holds.
pub uninterp spec fn mapped_bytes(m: Mmap) -> Seq<u8>;

/// Relies on `<memmap2::Mmap as Deref>::deref`: the bytes of the map, the same on each call.
#[verifier::external_body]
fn map_contents(m: &Mmap) -> (r: &[u8])
    ensures
        r@ == mapped_bytes(*m),
{
    &m[..]
}

/// A read-only mapped file with the offsets of its lines, so that any line can be
/// read without copying the file.
pub struct MmapFile {
    mmap: Mmap,
    line_offsets: Vec<usize>,
}

impl MmapFile {
    #[verifier::type_invariant]
    spec fn offsets_match(&self) -> bool {
        usize_ints(self.line_offsets@) == line_starts(mapped_bytes(self.mmap))
    }

    /// The bytes of the file.
    pub closed spec fn bytes(&self) -> Seq<u8> {
        mapped_bytes(self.mmap)
    }

    /// Indexes the lines of a mapped file with one scan.
    pub fn from_mmap(mmap: Mmap) -> (r: Self)
        ensures
            r.bytes() == mapped_bytes(mmap),
    {
        let line_offsets = calculate_line_offsets(map_contents(&mmap));
        MmapFile { mmap, line_offsets }
    }

    /// The bytes of the file, without copying them.
    pub fn as_bytes(&self) -> (r: &[u8])
        ensures
            r@ == self.bytes(),
    {
        map_contents(&self.mmap)
    }

    /// The number of lines: one more than the newlines, so that an empty file has one
    /// empty line and a final newline is followed by an empty line.
    pub fn line_count(&self) -> (r: usize)
        ensures
            r == line_total(self.bytes()),
    {
        proof {
            use_type_invariant(self);
        }
        self.line_offsets.len()
    }

    /// Line `line_num` (from 0), without its newline: `Ok(None)` past the end, an
    /// encoding error where the line is not valid UTF-8.
    pub fn get_line(&self, line_num: usize) -> (r: Result<Option<&str>, DiffError>)
        ensures
            line_num >= line_total(self.bytes()) ==> r == Ok::<Option<&str>, DiffError>(None),
            line_num < line_total(self.bytes()) ==> match r {
                Ok(Some(s)) => valid_utf8(line_bytes(self.bytes(), line_num as int)) && s@ == decode_utf8(
                    line_bytes(self.bytes(), line_num as int),
                ),
                Ok(None) => false,
                Err(e) => !valid_utf8(line_bytes(self.bytes(), line_num as int)) && e is EncodingError,
            },
    {
        proof {
            use_type_invariant(self);
        }
        if line_num >= self.line_count() {
            return Ok(None);
        }
        let data = map_contents(&self.mmap);
        match decode(line_slice(data, &self.line_offsets, line_num)) {
            Some(s) => Ok(Some(s)),
            None => Err(DiffError::EncodingError(encoding_message())),
        }
    }

    /// Lines `start..start + count`, clipped to the file; an encoding error where one
    /// of them is not valid UTF-8.
    pub fn get_lines(&self, start: usize, count: usize) -> (r: Result<Vec<String>, DiffError>)
        ensures
            ({
                let lo = clipped_range(start as int, count as int, line_total(self.bytes())).0;
                let hi = clipped_range(start as int, count as int, line_total(self.bytes())).1;
                &&& r is Ok <==> range_valid(self.bytes(), lo, hi)
                &&& r matches Ok(v) ==> string_views(v@) == decoded_range(self.bytes(), lo, hi)
                &&& r matches Err(e) ==> e is EncodingError
            }),
    {
        let total = self.line_count();
        let end = if start >= total || count >= total - start {
            total
        } else {
            start + count
        };
        let ghost cr = clipped_range(start as int, count as int, total as int);
        assert(end <= start ==> cr == (end as int, end as int));
        assert(end > start ==> cr == (start as int, end as int));
        let mut out: Vec<String> = Vec::new();
        if end <= start {
            assert(string_views(out@) =~= decoded_range(self.bytes(), end as int, end as int));
            return Ok(out);
        }
        let mut i: usize = start;
        while i < end
            invariant
                total == line_total(self.bytes()),
                end <= total,
                start <= i <= end,
                string_views(out@) =~= decoded_range(self.bytes(), start as int, i as int),
                range_valid(self.bytes(), start as int, i as int),
                cr == clipped_range(start as int, count as int, line_total(self.bytes())),
                cr == (start as int, end as int),
            decreases end - i,
        {
            match self.get_line(i) {
                Ok(Some(s)) => {
                    let owned = s.to_owned();
                    proof {
                        assert(string_views(out@.push(owned)) =~= string_views(out@).push(owned@));
                    }
                    out.push(owned);
                },
                _ => {
                    assert(!valid_utf8(line_bytes(self.bytes(), i as int)));
                    assert(!range_valid(self.bytes(), start as int, end as int));
                    return Err(DiffError::EncodingError(encoding_message()));
                },
            }
            i = i + 1;
        }
        Ok(out)
    }

    /// Every line; an encoding error where one is not valid UTF-8.
    pub fn get_all_lines(&self) -> (r: Result<Vec<String>, DiffError>)
        ensures
            r is Ok <==> range_valid(self.bytes(), 0, line_total(self.bytes())),
            r matches Ok(v) ==> string_views(v@) == decoded_range(self.bytes(), 0, line_total(self.bytes())),
            r matches Err(e) ==> e is EncodingError,
    {
        self.get_lines(0, self.line_count())
    }

    /// The size of the file in bytes.
    pub fn size(&self) -> (r: usize)
        ensures
            r == self.bytes().len(),
    {
        map_contents(&self.mmap).len()
    }
}


/// The bytes of valid UTF-8 that follow an ASCII byte are valid UTF-8.
proof fn lemma_after_ascii_valid(d: Seq<u8>, lo: int)
    requires
        valid_utf8(d),
        0 <= lo <= d.len(),
        lo == 0 || d[lo - 1] < 0x80,
    ensures
        valid_utf8(d.subrange(lo, d.len() as int)),
{
    if lo == 0 {
        assert(d.subrange(0, d.len() as int) =~= d);
    } else {
        is_char_boundary_iff_not_is_continuation_byte(d, lo - 1);
        valid_utf8_split(d, lo - 1);
        let t = d.subrange(lo - 1, d.len() as int);
        assert(t[0] == d[lo - 1]);
        assert(t.len() > 0);
        assert(vstd::utf8::pop_first_scalar(t) =~= d.subrange(lo, d.len() as int));
    }
}

/// The bytes of valid UTF-8 between two ASCII bytes (or the ends) are valid UTF-8.
proof fn lemma_ascii_cut_valid(d: Seq<u8>, lo: int, hi: int)
    requires
        valid_utf8(d),
        0 <= lo <= hi <= d.len(),
        lo == 0 || d[lo - 1] < 0x80,
        hi == d.len() || d[hi] < 0x80,
    ensures
        valid_utf8(d.subrange(lo, hi)),
{
    lemma_after_ascii_valid(d, lo);
    let t = d.subrange(lo, d.len() as int);
    if hi == d.len() {
    } else {
        assert(t[hi - lo] == d[hi]);
        is_char_boundary_iff_not_is_continuation_byte(t, hi - lo);
        valid_utf8_split(t, hi - lo);
        assert(t.subrange(0, hi - lo) =~= d.subrange(lo, hi));
    }
}

/// Every line of a valid UTF-8 text is valid UTF-8.
pub proof fn lemma_text_lines_valid(d: Seq<u8>)
    requires
        valid_utf8(d),
    ensures
        text_lines_valid(d),
{
    lemma_line_starts(d);
    let st = line_starts(d);
    assert forall|k: int| 0 <= k < text_line_total(d) implies valid_utf8(#[trigger] text_line_bytes(d, k)) by {
        let lo = st[k];
        let end = if k + 1 < st.len() {
            st[k + 1] - 1
        } else {
            d.len() as int
        };
        if k > 0 {
            assert(d[st[k] - 1] == NEWLINE);
        }
        if k + 1 < st.len() {
            assert(d[st[k + 1] - 1] == NEWLINE);
            assert(st[k] < st[k + 1]);
        }
        let b = line_bytes(d, k);
        assert(b == d.subrange(lo, end));
        if k + 1 < line_total(d) && b.len() > 0 && b.last() == CARRIAGE_RETURN {
            assert(d[end - 1] == CARRIAGE_RETURN);
            lemma_ascii_cut_valid(d, lo, end - 1);
            assert(b.drop_last() =~= d.subrange(lo, end - 1));
        } else {
            lemma_ascii_cut_valid(d, lo, end);
        }
    }
}

} // verus!
