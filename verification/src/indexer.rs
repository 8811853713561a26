//! Finding line starts: a whole-buffer scan and the chunked scan the
//! background indexer runs, which finds the same starts whatever the chunk
//! size.
use vstd::prelude::*;
use crate::index::LineIndex;
use crate::parse::Encoding;

verus! {

/// The newline bytes of an encoding: `0A` for UTF-8 and CP949, `0A 00` for
/// UTF-16LE, `00 0A` for UTF-16BE.
pub open spec fn spec_newline_pattern(enc: Encoding) -> Seq<u8> {
    match enc {
        Encoding::Utf8 | Encoding::Cp949 => seq![10u8],
        Encoding::Utf16Le => seq![10u8, 0u8],
        Encoding::Utf16Be => seq![0u8, 10u8],
    }
}

/// Newline byte pattern for each encoding.
pub fn newline_pattern(enc: Encoding) -> (p: &'static [u8])
    ensures
        p@ == spec_newline_pattern(enc),
{
    match enc {
        Encoding::Utf8 | Encoding::Cp949 => {
            let p: &'static [u8] = &[10u8];
            assert(p@ == seq![10u8]);
            p
        },
        Encoding::Utf16Le => {
            let p: &'static [u8] = &[10u8, 0u8];
            assert(p@ == seq![10u8, 0u8]);
            p
        },
        Encoding::Utf16Be => {
            let p: &'static [u8] = &[0u8, 10u8];
            assert(p@ == seq![0u8, 10u8]);
            p
        },
    }
}

/// The pattern occurs in `b` at position `j`.
pub open spec fn matches_at(b: Seq<u8>, pat: Seq<u8>, j: int) -> bool {
    0 <= j && j + pat.len() <= b.len() && b.subrange(j, j + pat.len()) == pat
}

/// The line start that a newline at `j` makes, if any: the byte after the
/// newline, unless that is the end of the buffer.
pub open spec fn start_after(b: Seq<u8>, pat: Seq<u8>, j: int) -> Seq<int> {
    if matches_at(b, pat, j) && j + pat.len() < b.len() { seq![j + pat.len()] } else { seq![] }
}

/// The line starts made by newlines beginning in `[lo, hi)`, in order.
pub open spec fn starts_in(b: Seq<u8>, pat: Seq<u8>, lo: int, hi: int) -> Seq<int>
    decreases hi - lo,
{
    if lo >= hi { seq![] } else { start_after(b, pat, lo) + starts_in(b, pat, lo + 1, hi) }
}

/// Line starts as absolute offsets (`base` added).
pub open spec fn shifted(s: Seq<int>, base: int) -> Seq<int> {
    s.map_values(|x: int| x + base)
}

/// A pattern cannot overlap itself: one byte, or two different bytes.
pub open spec fn non_overlapping(pat: Seq<u8>) -> bool {
    pat.len() == 1 || (pat.len() == 2 && pat[0] != pat[1])
}

proof fn lemma_starts_split(b: Seq<u8>, pat: Seq<u8>, lo: int, mid: int, hi: int)
    requires
        lo <= mid <= hi,
    ensures
        starts_in(b, pat, lo, hi) == starts_in(b, pat, lo, mid) + starts_in(b, pat, mid, hi),
    decreases mid - lo,
{
    if lo < mid {
        lemma_starts_split(b, pat, lo + 1, mid, hi);
        assert(starts_in(b, pat, lo, hi) =~= starts_in(b, pat, lo, mid) + starts_in(b, pat, mid, hi));
    } else {
        assert(starts_in(b, pat, lo, mid) =~= Seq::<int>::empty());
        assert(starts_in(b, pat, lo, hi) =~= starts_in(b, pat, lo, mid) + starts_in(b, pat, mid, hi));
    }
}

proof fn lemma_starts_step(b: Seq<u8>, pat: Seq<u8>, j: int, k: int)
    requires
        non_overlapping(pat),
        k == j + 1 || (k == j + pat.len() && matches_at(b, pat, j)),
    ensures
        starts_in(b, pat, j, k) == start_after(b, pat, j),
{
    assert(starts_in(b, pat, j + 1, j + 1) =~= Seq::<int>::empty());
    assert(starts_in(b, pat, j, j + 1) =~= start_after(b, pat, j));
    if k == j + 2 && k != j + 1 {
        lemma_no_match_inside(b, pat, j);
        assert(starts_in(b, pat, j + 2, j + 2) =~= Seq::<int>::empty());
        assert(starts_in(b, pat, j + 1, j + 2) =~= start_after(b, pat, j + 1));
        assert(start_after(b, pat, j + 1) =~= Seq::<int>::empty());
        assert(starts_in(b, pat, j, j + 2) =~= start_after(b, pat, j) + starts_in(b, pat, j + 1, j + 2));
    }
}

/// Right after a match, no match begins inside it.
proof fn lemma_no_match_inside(b: Seq<u8>, pat: Seq<u8>, j: int)
    requires
        non_overlapping(pat),
        matches_at(b, pat, j),
    ensures
        pat.len() == 2 ==> !matches_at(b, pat, j + 1),
{
    if pat.len() == 2 && matches_at(b, pat, j + 1) {
        assert(b.subrange(j, j + 2)[1] == pat[1]);
        assert(b.subrange(j + 1, j + 3)[0] == pat[0]);
    }
}

/// Whether `pat` occurs in `b` at `j` (bounds checked).
fn pattern_at(b: &[u8], pat: &[u8], j: usize) -> (r: bool)
    requires
        non_overlapping(pat@),
    ensures
        r == matches_at(b@, pat@, j as int),
{
    let step = pat.len();
    if j > b.len() || b.len() - j < step {
        return false;
    }
    if b[j] != pat[0] {
        assert(b@.subrange(j as int, j + step)[0] != pat@[0]);
        return false;
    }
    if step == 2 && b[j + 1] != pat[1] {
        assert(b@.subrange(j as int, j + step)[1] != pat@[1]);
        return false;
    }
    assert(b@.subrange(j as int, j + step) =~= pat@);
    true
}

/// What `scan_offsets` returns: nothing for empty bytes, else `start` and
/// then the absolute start of every line that begins after a newline.
pub open spec fn spec_scan_offsets(b: Seq<u8>, start: u64, enc: Encoding) -> Seq<int> {
    if b.len() == 0 {
        seq![]
    } else {
        seq![start as int] + shifted(starts_in(b, spec_newline_pattern(enc), 0, b.len() as int), start as int)
    }
}

/// Line starts of `bytes` as absolute offsets (`start` plus the local
/// position): the first line's start, then the byte after each newline
/// (except at the very end).
pub fn scan_offsets(bytes: &[u8], start: u64, enc: Encoding) -> (offs: Vec<u64>)
    requires
        start + bytes@.len() <= u64::MAX,
    ensures
        offs@.map_values(|x: u64| x as int) == spec_scan_offsets(bytes@, start, enc),
{
    let pat = newline_pattern(enc);
    let mut result: Vec<u64> = Vec::new();
    if bytes.len() == 0 {
        assert(result@.map_values(|x: u64| x as int) =~= Seq::<int>::empty());
        return result;
    }
    result.push(start);
    let ghost b = bytes@;
    let ghost p = pat@;
    let step = pat.len();
    let n = bytes.len();
    let mut i: usize = 0;
    assert(result@.map_values(|x: u64| x as int) =~= seq![start as int] + shifted(starts_in(b, p, 0, 0), start as int));
    while i < n
        invariant
            0 <= i <= n == b.len() == bytes@.len(),
            b == bytes@,
            p == pat@,
            step == p.len(),
            non_overlapping(p),
            start + n <= u64::MAX,
            result@.map_values(|x: u64| x as int) == seq![start as int] + shifted(starts_in(b, p, 0, i as int), start as int),
        decreases n - i,
    {
        let ghost before = result@;
        if pattern_at(bytes, pat, i) {
            let next = i + step;
            proof {
                lemma_starts_split(b, p, 0, i as int, next as int);
                lemma_starts_step(b, p, i as int, next as int);
            }
            let ghost sa = start_after(b, p, i as int);
            if next < n {
                result.push(start + next as u64);
                assert(sa == seq![next as int]);
                assert(result@.map_values(|x: u64| x as int) =~= before.map_values(|x: u64| x as int).push(start + next));
            } else {
                assert(sa =~= Seq::<int>::empty());
                assert(result@ == before);
            }
            assert(shifted(starts_in(b, p, 0, next as int), start as int)
                =~= shifted(starts_in(b, p, 0, i as int), start as int) + shifted(sa, start as int));
            i = next;
            assert(result@.map_values(|x: u64| x as int) =~= seq![start as int] + shifted(starts_in(b, p, 0, i as int), start as int));
        } else {
            proof {
                lemma_starts_split(b, p, 0, i as int, i + 1);
                lemma_starts_step(b, p, i as int, i + 1);
            }
            i += 1;
            assert(result@.map_values(|x: u64| x as int) =~= seq![start as int] + shifted(starts_in(b, p, 0, i as int), start as int));
        }
    }
    result
}

/// Scans the chunk `[pos, end)` of `bytes` (a newline may run past `end`)
/// and records the start of each line that follows a newline beginning in
/// the chunk.
fn scan_chunk(bytes: &[u8], index: &mut LineIndex, pat: &[u8], pos: usize, end: usize)
    requires
        pos < end <= bytes@.len(),
        non_overlapping(pat@),
    ensures
        final(index).offsets().map_values(|x: u64| x as int)
            == old(index).offsets().map_values(|x: u64| x as int) + starts_in(bytes@, pat@, pos as int, end as int),
        final(index).total() == old(index).total(),
        final(index).done() == old(index).done(),
        final(index).phase() == old(index).phase(),
        final(index).pausing() == old(index).pausing(),
{
    let ghost b = bytes@;
    let ghost p = pat@;
    let ghost start_offs = index.offsets().map_values(|x: u64| x as int);
    let step = pat.len();
    let total = bytes.len();
    let mut j: usize = pos;
    while j < end
        invariant
            pos <= j <= end + 1,
            j == end + 1 ==> !matches_at(b, p, end as int),
            end <= total == b.len(),
            b == bytes@,
            p == pat@,
            step == p.len(),
            non_overlapping(p),
            index.offsets().map_values(|x: u64| x as int) == start_offs + starts_in(b, p, pos as int, j as int),
            index.total() == old(index).total(),
            index.done() == old(index).done(),
            index.phase() == old(index).phase(),
            index.pausing() == old(index).pausing(),
        decreases end + 1 - j,
    {
        let ghost before = index.offsets();
        if pattern_at(bytes, pat, j) {
            let next = j + step;
            proof {
                lemma_starts_split(b, p, pos as int, j as int, next as int);
                lemma_starts_step(b, p, j as int, next as int);
                lemma_no_match_inside(b, p, j as int);
            }
            let ghost sa = start_after(b, p, j as int);
            if next < total {
                index.push_offset(next as u64);
                assert(sa == seq![next as int]);
                assert(index.offsets().map_values(|x: u64| x as int) =~= before.map_values(|x: u64| x as int).push(next as int));
            } else {
                assert(sa =~= Seq::<int>::empty());
            }
            j = next;
            assert(index.offsets().map_values(|x: u64| x as int) =~= start_offs + starts_in(b, p, pos as int, j as int));
        } else {
            proof {
                lemma_starts_split(b, p, pos as int, j as int, j + 1);
                lemma_starts_step(b, p, j as int, j + 1);
            }
            j += 1;
            assert(index.offsets().map_values(|x: u64| x as int) =~= start_offs + starts_in(b, p, pos as int, j as int));
        }
    }
    proof {
        if j > end {
            lemma_starts_split(b, p, pos as int, end as int, end + 1);
            lemma_starts_step(b, p, end as int, end + 1);
        }
    }
}

/// The offsets an index holds after a scan from `pos`: the first line's start
/// 0 when the index was empty (and the file is not), then the starts that
/// the newlines beginning in `[pos, upto)` make.
pub open spec fn indexed(before: Seq<u64>, b: Seq<u8>, enc: Encoding, pos: int, upto: int) -> Seq<int> {
    (if before.len() == 0 && b.len() > 0 { seq![0int] } else { seq![] })
        + starts_in(b, spec_newline_pattern(enc), pos, upto)
}

/// Scans `bytes` from `pos` to the end in chunks of `chunk_size`, adding the
/// line starts found to `index`; before each chunk it asks `should_pause`
/// and stops (returning `true`) only when told to, and after each chunk it
/// reports how far it got (a position past `pos`, at most the length: the
/// only positions `on_chunk_done` must accept). A newline that straddles a chunk boundary is still found,
/// so the starts recorded do not depend on the chunk size: a full run adds
/// exactly the starts after newlines in `[pos, len)`.
pub fn index_range(
    bytes: &[u8],
    index: &mut LineIndex,
    enc: Encoding,
    chunk_size: usize,
    pos: usize,
    should_pause: impl Fn() -> bool,
    on_chunk_done: impl Fn(usize),
) -> (paused: bool)
    requires
        chunk_size > 0,
        bytes@.len() + chunk_size <= usize::MAX,
        call_requires(should_pause, ()),
        forall|p: usize| pos < p <= bytes@.len() ==> call_requires(on_chunk_done, (p,)),
    ensures
        final(index).total() == old(index).total(),
        final(index).done() == old(index).done(),
        final(index).phase() == old(index).phase(),
        final(index).pausing() == old(index).pausing(),
        !paused ==> final(index).offsets().map_values(|x: u64| x as int)
            == old(index).offsets().map_values(|x: u64| x as int)
                + indexed(old(index).offsets(), bytes@, enc, pos as int, bytes@.len() as int),
        paused ==> call_ensures(should_pause, (), true),
        (forall|t: bool| call_ensures(should_pause, (), t) ==> !t) ==> !paused,
        paused ==> exists|upto: int| pos <= upto <= bytes@.len()
            && final(index).offsets().map_values(|x: u64| x as int)
                == old(index).offsets().map_values(|x: u64| x as int)
                    + indexed(old(index).offsets(), bytes@, enc, pos as int, upto),
{
    let ghost b = bytes@;
    let ghost start_offs = index.offsets().map_values(|x: u64| x as int);
    let ghost was_empty = index.offsets().len() == 0;
    let total = bytes.len();
    let pat = newline_pattern(enc);
    let ghost p = pat@;
    if index.line_count() == 0 && total > 0 {
        index.push_offset(0);
    }
    let ghost first = if was_empty && b.len() > 0 { seq![0int] } else { Seq::<int>::empty() };
    assert(index.offsets().map_values(|x: u64| x as int) =~= start_offs + first + starts_in(b, p, pos as int, pos as int));
    let mut cur = pos;
    while cur < total
        invariant
            pos <= cur,
            cur >= total ==> cur == pos || cur == total,
            total == b.len() == bytes@.len(),
            b == bytes@,
            p == pat@,
            p == spec_newline_pattern(enc),
            chunk_size > 0,
            total + chunk_size <= usize::MAX,
            call_requires(should_pause, ()),
            forall|q: usize| pos < q <= total ==> call_requires(on_chunk_done, (q,)),
            first == (if was_empty && b.len() > 0 { seq![0int] } else { Seq::<int>::empty() }),
            was_empty == (old(index).offsets().len() == 0),
            start_offs == old(index).offsets().map_values(|x: u64| x as int),
            index.offsets().map_values(|x: u64| x as int) == start_offs + first + starts_in(b, p, pos as int, cur as int),
            index.total() == old(index).total(),
            index.done() == old(index).done(),
            index.phase() == old(index).phase(),
            index.pausing() == old(index).pausing(),
        decreases total - cur,
    {
        let pause = should_pause();
        if pause {
            assert(start_offs + first + starts_in(b, p, pos as int, cur as int)
                =~= start_offs + indexed(old(index).offsets(), b, enc, pos as int, cur as int));
            assert(pos <= cur <= b.len());
            return true;
        }
        let end = if cur + chunk_size < total { cur + chunk_size } else { total };
        proof { lemma_starts_split(b, p, pos as int, cur as int, end as int); }
        scan_chunk(bytes, index, pat, cur, end);
        cur = end;
        assert(index.offsets().map_values(|x: u64| x as int) =~= start_offs + first + starts_in(b, p, pos as int, cur as int));
        on_chunk_done(cur);
    }
    proof {
        if pos >= total {
            assert(starts_in(b, p, pos as int, cur as int) =~= Seq::<int>::empty());
            assert(starts_in(b, p, pos as int, total as int) =~= Seq::<int>::empty());
        }
    }
    assert(start_offs + first + starts_in(b, p, pos as int, total as int)
        =~= start_offs + indexed(old(index).offsets(), b, enc, pos as int, total as int));
    false
}

/// A whole run of the chunked scan over a file, into an empty index, records
/// exactly the offsets the one-pass scan finds, whatever the chunk size.
pub proof fn lemma_chunked_equals_whole(b: Seq<u8>, enc: Encoding)
    ensures
        indexed(Seq::<u64>::empty(), b, enc, 0, b.len() as int) == spec_scan_offsets(b, 0, enc),
{
    let s = starts_in(b, spec_newline_pattern(enc), 0, b.len() as int);
    assert(shifted(s, 0) =~= s);
    if b.len() == 0 {
        assert(s =~= Seq::<int>::empty());
    }
}

} // verus!
