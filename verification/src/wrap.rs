//! The wrapping searches behind `find_next` and `find_prev`: they come back
//! empty only when the needle matches on no line, what they give is a match
//! of its line, and repeated Find Next visits every match once in reading
//! order and comes back.
use vstd::prelude::*;
use vstd::arithmetic::div_mod::{lemma_small_mod, lemma_mod_add_multiples_vanish};
use crate::edit::TextPos;
use crate::find::{next_from, prev_from, pick_forward, pick_backward, hits_of_line, start_line, FindOptions};

verus! {

/// The line `find_next` visits at step `t`.
pub open spec fn fwd_line(n: usize, from: TextPos, t: int) -> usize {
    ((start_line(n, from) + t) % (n as int)) as usize
}

/// The line `find_prev` visits at step `t`.
pub open spec fn bwd_line(n: usize, from: TextPos, t: int) -> usize {
    ((start_line(n, from) + n - t % (n as int)) % (n as int)) as usize
}

/// What `find_next` picks on the line of step `t`.
pub open spec fn fwd_pick<F: Fn(usize) -> Option<String>>(n: usize, from: TextPos, needle: Seq<char>, opts: FindOptions, delim: Option<u8>, f: F, t: int) -> Option<(usize, usize)> {
    pick_forward(hits_of_line(f, fwd_line(n, from, t), needle, opts, delim), 0, t == 0, t == n, from.col)
}

/// What `find_prev` picks on the line of step `t`.
pub open spec fn bwd_pick<F: Fn(usize) -> Option<String>>(n: usize, from: TextPos, needle: Seq<char>, opts: FindOptions, delim: Option<u8>, f: F, t: int) -> Option<(usize, usize)> {
    let hits = hits_of_line(f, bwd_line(n, from, t), needle, opts, delim);
    pick_backward(hits, hits.len() - 1, t == 0, t == n, from.col)
}

/// A forward pick is one of the hits from `k` on.
proof fn lemma_pick_forward_hit(h: Seq<(usize, usize)>, k: int, first: bool, last: bool, c: usize)
    requires
        0 <= k,
    ensures
        pick_forward(h, k, first, last, c) matches Some(x) ==> exists|j: int| k <= j < h.len() && h[j] == x,
    decreases h.len() - k,
{
    if k < h.len() {
        lemma_pick_forward_hit(h, k + 1, first, last, c);
    }
}

/// On its first visit a forward pick finds nothing only when every hit
/// starts at or before the column.
proof fn lemma_pick_forward_first_none(h: Seq<(usize, usize)>, k: int, c: usize)
    requires
        0 <= k,
        pick_forward(h, k, true, false, c) is None,
    ensures
        forall|j: int| k <= j < h.len() ==> h[j].0 <= c,
    decreases h.len() - k,
{
    if k < h.len() {
        lemma_pick_forward_first_none(h, k + 1, c);
    }
}

/// A backward pick is one of the hits up to `k`.
proof fn lemma_pick_backward_hit(h: Seq<(usize, usize)>, k: int, first: bool, last: bool, c: usize)
    requires
        k < h.len(),
    ensures
        pick_backward(h, k, first, last, c) matches Some(x) ==> exists|j: int| 0 <= j <= k && h[j] == x,
    decreases k + 1,
{
    if k >= 0 {
        lemma_pick_backward_hit(h, k - 1, first, last, c);
    }
}

/// On its first visit a backward pick finds nothing only when every hit
/// starts at or after the column.
proof fn lemma_pick_backward_first_none(h: Seq<(usize, usize)>, k: int, c: usize)
    requires
        k < h.len(),
        pick_backward(h, k, true, false, c) is None,
    ensures
        forall|j: int| 0 <= j <= k ==> h[j].0 >= c,
    decreases k + 1,
{
    if k >= 0 {
        lemma_pick_backward_first_none(h, k - 1, c);
    }
}

/// Where the forward search from step `s` finds nothing, no step from `s`
/// on picks anything.
proof fn lemma_next_none_steps<F: Fn(usize) -> Option<String>>(n: usize, from: TextPos, needle: Seq<char>, opts: FindOptions, delim: Option<u8>, f: F, s: int)
    requires
        n > 0,
        0 <= s <= n,
        next_from(n, from, needle, opts, delim, f, s) is None,
    ensures
        forall|t: int| s <= t <= n ==> #[trigger] fwd_pick(n, from, needle, opts, delim, f, t) is None,
    decreases n - s,
{
    assert(fwd_pick(n, from, needle, opts, delim, f, s) is None);
    if s < n {
        lemma_next_none_steps(n, from, needle, opts, delim, f, s + 1);
    }
}

/// Where no line has a hit, the forward search from step `s` finds nothing.
proof fn lemma_next_none_when_empty<F: Fn(usize) -> Option<String>>(n: usize, from: TextPos, needle: Seq<char>, opts: FindOptions, delim: Option<u8>, f: F, s: int)
    requires
        n > 0,
        0 <= s,
        forall|i: usize| i < n ==> #[trigger] hits_of_line(f, i, needle, opts, delim).len() == 0,
    ensures
        next_from(n, from, needle, opts, delim, f, s) is None,
    decreases n + 1 - s,
{
    if s <= n {
        let line = fwd_line(n, from, s);
        assert(line < n);
        assert(hits_of_line(f, line, needle, opts, delim).len() == 0);
        lemma_next_none_when_empty(n, from, needle, opts, delim, f, s + 1);
    }
}

/// What the forward search from step `s` gives is a hit of its line.
proof fn lemma_next_some_hit<F: Fn(usize) -> Option<String>>(n: usize, from: TextPos, needle: Seq<char>, opts: FindOptions, delim: Option<u8>, f: F, s: int)
    requires
        n > 0,
        0 <= s,
    ensures
        next_from(n, from, needle, opts, delim, f, s) matches Some(m) ==> m.line < n && exists|k: int|
            0 <= k < hits_of_line(f, m.line, needle, opts, delim).len() && #[trigger] hits_of_line(f, m.line, needle, opts, delim)[k] == (m.col, m.len),
    decreases n + 1 - s,
{
    if s <= n {
        let line = fwd_line(n, from, s);
        let hits = hits_of_line(f, line, needle, opts, delim);
        lemma_pick_forward_hit(hits, 0, s == 0, s == n, from.col);
        lemma_next_some_hit(n, from, needle, opts, delim, f, s + 1);
        if let Some(h) = fwd_pick(n, from, needle, opts, delim, f, s) {
            let j = choose|j: int| 0 <= j < hits.len() && hits[j] == h;
            let m = crate::find::Match { line, col: h.0, len: h.1 };
            assert(next_from(n, from, needle, opts, delim, f, s) == Some(m));
            assert(hits_of_line(f, m.line, needle, opts, delim)[j] == (m.col, m.len));
            assert(m.line < n);
        }
    }
}

/// Every line other than the start line is visited at some step between
/// the first and the last, both of which visit the start line.
proof fn lemma_fwd_lines(n: usize, from: TextPos, i: usize)
    requires
        n > 0,
        i < n,
    ensures
        fwd_line(n, from, 0) == start_line(n, from),
        fwd_line(n, from, n as int) == start_line(n, from),
        i != start_line(n, from) ==> {
            let t: int = if i > start_line(n, from) { i - start_line(n, from) } else { i + n - start_line(n, from) };
            &&& 0 < t < n
            &&& fwd_line(n, from, t) == i
        },
{
    let st = start_line(n, from) as int;
    lemma_small_mod(st as nat, n as nat);
    lemma_small_mod(i as nat, n as nat);
    lemma_mod_add_multiples_vanish(st, n as int);
    lemma_mod_add_multiples_vanish(i as int, n as int);
    assert(st + n == n + st);
    assert(i + n == n + i);
}

/// Every line other than the start line is visited at some step between
/// the first and the last, both of which visit the start line.
proof fn lemma_bwd_lines(n: usize, from: TextPos, i: usize)
    requires
        n > 0,
        i < n,
    ensures
        bwd_line(n, from, 0) == start_line(n, from),
        bwd_line(n, from, n as int) == start_line(n, from),
        i != start_line(n, from) ==> {
            let t: int = if start_line(n, from) > i { start_line(n, from) - i } else { start_line(n, from) + n - i };
            &&& 0 < t < n
            &&& bwd_line(n, from, t) == i
        },
{
    let st = start_line(n, from) as int;
    lemma_small_mod(st as nat, n as nat);
    lemma_small_mod(i as nat, n as nat);
    lemma_small_mod(0, n as nat);
    lemma_mod_add_multiples_vanish(st, n as int);
    lemma_mod_add_multiples_vanish(i as int, n as int);
    lemma_mod_add_multiples_vanish(0, n as int);
    assert(n as int % n as int == 0);
    if i != st {
        let t: int = if st > i { st - i } else { st + n - i };
        lemma_small_mod(t as nat, n as nat);
        assert(st + n - t == n + i || st + n - t == i);
    }
}

/// The search `find_next` runs (for deterministic lines its contract gives
/// `next_from`) comes back empty
/// exactly when no line of the document has a match; otherwise it gives a
/// match of the line it names.
pub proof fn lemma_find_next_finds_any_match<F: Fn(usize) -> Option<String>>(
    line_count: usize,
    from: TextPos,
    needle: Seq<char>,
    opts: FindOptions,
    delim: Option<u8>,
    f: F,
)
    requires
        line_count > 0,
    ensures
        next_from(line_count, from, needle, opts, delim, f, 0) is None
            <==> forall|i: usize| i < line_count ==> #[trigger] hits_of_line(f, i, needle, opts, delim).len() == 0,
        next_from(line_count, from, needle, opts, delim, f, 0) matches Some(m) ==> m.line < line_count && exists|k: int|
            0 <= k < hits_of_line(f, m.line, needle, opts, delim).len() && #[trigger] hits_of_line(f, m.line, needle, opts, delim)[k] == (m.col, m.len),
{
    let n = line_count;
    lemma_next_some_hit(n, from, needle, opts, delim, f, 0);
    if next_from(n, from, needle, opts, delim, f, 0) is None {
        lemma_next_none_steps(n, from, needle, opts, delim, f, 0);
        assert forall|i: usize| i < n implies #[trigger] hits_of_line(f, i, needle, opts, delim).len() == 0 by {
            lemma_fwd_lines(n, from, i);
            let st = start_line(n, from);
            let h = hits_of_line(f, i, needle, opts, delim);
            if i == st {
                assert(fwd_pick(n, from, needle, opts, delim, f, 0) is None);
                assert(fwd_pick(n, from, needle, opts, delim, f, n as int) is None);
                lemma_pick_forward_first_none(h, 0, from.col);
                if h.len() > 0 {
                    assert(h[0].0 <= from.col);
                }
            } else {
                let t: int = if i > st { i - st } else { i + n - st };
                assert(fwd_pick(n, from, needle, opts, delim, f, t) is None);
            }
        }
    } else {
        if forall|i: usize| i < n ==> #[trigger] hits_of_line(f, i, needle, opts, delim).len() == 0 {
            lemma_next_none_when_empty(n, from, needle, opts, delim, f, 0);
        }
    }
}

/// Where the backward search from step `s` finds nothing, no step from `s`
/// on picks anything.
proof fn lemma_prev_none_steps<F: Fn(usize) -> Option<String>>(n: usize, from: TextPos, needle: Seq<char>, opts: FindOptions, delim: Option<u8>, f: F, s: int)
    requires
        n > 0,
        0 <= s <= n,
        prev_from(n, from, needle, opts, delim, f, s) is None,
    ensures
        forall|t: int| s <= t <= n ==> #[trigger] bwd_pick(n, from, needle, opts, delim, f, t) is None,
    decreases n - s,
{
    assert(bwd_pick(n, from, needle, opts, delim, f, s) is None);
    if s < n {
        lemma_prev_none_steps(n, from, needle, opts, delim, f, s + 1);
    }
}

/// Where no line has a hit, the backward search from step `s` finds nothing.
proof fn lemma_prev_none_when_empty<F: Fn(usize) -> Option<String>>(n: usize, from: TextPos, needle: Seq<char>, opts: FindOptions, delim: Option<u8>, f: F, s: int)
    requires
        n > 0,
        0 <= s,
        forall|i: usize| i < n ==> #[trigger] hits_of_line(f, i, needle, opts, delim).len() == 0,
    ensures
        prev_from(n, from, needle, opts, delim, f, s) is None,
    decreases n + 1 - s,
{
    if s <= n {
        let line = bwd_line(n, from, s);
        assert(line < n);
        assert(hits_of_line(f, line, needle, opts, delim).len() == 0);
        lemma_prev_none_when_empty(n, from, needle, opts, delim, f, s + 1);
    }
}

/// What the backward search from step `s` gives is a hit of its line.
#[verifier::spinoff_prover]
proof fn lemma_prev_some_hit<F: Fn(usize) -> Option<String>>(n: usize, from: TextPos, needle: Seq<char>, opts: FindOptions, delim: Option<u8>, f: F, s: int)
    requires
        n > 0,
        0 <= s,
    ensures
        prev_from(n, from, needle, opts, delim, f, s) matches Some(m) ==> m.line < n && exists|k: int|
            0 <= k < hits_of_line(f, m.line, needle, opts, delim).len() && #[trigger] hits_of_line(f, m.line, needle, opts, delim)[k] == (m.col, m.len),
    decreases n + 1 - s,
{
    if s <= n {
        let line = bwd_line(n, from, s);
        assert(line < n);
        let hits = hits_of_line(f, line, needle, opts, delim);
        lemma_pick_backward_hit(hits, hits.len() - 1, s == 0, s == n, from.col);
        lemma_prev_some_hit(n, from, needle, opts, delim, f, s + 1);
        assert(bwd_pick(n, from, needle, opts, delim, f, s) is None
            ==> prev_from(n, from, needle, opts, delim, f, s) == prev_from(n, from, needle, opts, delim, f, s + 1));
        if let Some(h) = bwd_pick(n, from, needle, opts, delim, f, s) {
            let j = choose|j: int| 0 <= j <= hits.len() - 1 && hits[j] == h;
            let m = crate::find::Match { line, col: h.0, len: h.1 };
            assert(prev_from(n, from, needle, opts, delim, f, s) == Some(m));
            assert(hits_of_line(f, m.line, needle, opts, delim)[j] == (m.col, m.len));
            assert(m.line < n);
        }
    }
}

/// The search `find_prev` runs (for deterministic lines its contract gives
/// `prev_from`) comes back empty
/// exactly when no line of the document has a match; otherwise it gives a
/// match of the line it names.
pub proof fn lemma_find_prev_finds_any_match<F: Fn(usize) -> Option<String>>(
    line_count: usize,
    from: TextPos,
    needle: Seq<char>,
    opts: FindOptions,
    delim: Option<u8>,
    f: F,
)
    requires
        line_count > 0,
    ensures
        prev_from(line_count, from, needle, opts, delim, f, 0) is None
            <==> forall|i: usize| i < line_count ==> #[trigger] hits_of_line(f, i, needle, opts, delim).len() == 0,
        prev_from(line_count, from, needle, opts, delim, f, 0) matches Some(m) ==> m.line < line_count && exists|k: int|
            0 <= k < hits_of_line(f, m.line, needle, opts, delim).len() && #[trigger] hits_of_line(f, m.line, needle, opts, delim)[k] == (m.col, m.len),
{
    let n = line_count;
    lemma_prev_some_hit(n, from, needle, opts, delim, f, 0);
    if prev_from(n, from, needle, opts, delim, f, 0) is None {
        lemma_prev_none_steps(n, from, needle, opts, delim, f, 0);
        assert forall|i: usize| i < n implies #[trigger] hits_of_line(f, i, needle, opts, delim).len() == 0 by {
            lemma_bwd_lines(n, from, i);
            let st = start_line(n, from);
            let h = hits_of_line(f, i, needle, opts, delim);
            if i == st {
                assert(bwd_pick(n, from, needle, opts, delim, f, 0) is None);
                assert(bwd_pick(n, from, needle, opts, delim, f, n as int) is None);
                if h.len() > 0 {
                    lemma_pick_backward_first_none(h, h.len() - 1, from.col);
                    assert(h[h.len() - 1].0 >= from.col);
                }
            } else {
                let t: int = if st > i { st - i } else { st + n - i };
                assert(bwd_pick(n, from, needle, opts, delim, f, t) is None);
            }
        }
    } else {
        if forall|i: usize| i < n ==> #[trigger] hits_of_line(f, i, needle, opts, delim).len() == 0 {
            lemma_prev_none_when_empty(n, from, needle, opts, delim, f, 0);
        }
    }
}

/// On each of the first `n` lines the matches come in order of their start
/// column (never decreasing).
pub open spec fn hits_in_order<F: Fn(usize) -> Option<String>>(n: usize, needle: Seq<char>, opts: FindOptions, delim: Option<u8>, f: F) -> bool {
    forall|i: usize, a: int, b: int|
        #![trigger hits_of_line(f, i, needle, opts, delim)[a], hits_of_line(f, i, needle, opts, delim)[b]]
        i < n && 0 <= a < b < hits_of_line(f, i, needle, opts, delim).len()
            ==> hits_of_line(f, i, needle, opts, delim)[a].0 <= hits_of_line(f, i, needle, opts, delim)[b].0
}

/// A match starts on line `i` (one of the first `n`) at column `c`.
pub open spec fn hit_at<F: Fn(usize) -> Option<String>>(n: usize, needle: Seq<char>, opts: FindOptions, delim: Option<u8>, f: F, i: usize, c: usize) -> bool {
    i < n && exists|k: int| 0 <= k < hits_of_line(f, i, needle, opts, delim).len()
        && #[trigger] hits_of_line(f, i, needle, opts, delim)[k].0 == c
}

/// Position (line `i`, column `c`) comes after (line `j`, column `d`) in
/// reading order.
pub open spec fn reads_after(i: usize, c: usize, j: usize, d: usize) -> bool {
    i > j || (i == j && c > d)
}

/// The step at which the forward search from step `s0` finds what it gives.
proof fn lemma_next_step<F: Fn(usize) -> Option<String>>(n: usize, from: TextPos, needle: Seq<char>, opts: FindOptions, delim: Option<u8>, f: F, s0: int) -> (s: int)
    requires
        n > 0,
        0 <= s0 <= n,
        next_from(n, from, needle, opts, delim, f, s0) is Some,
    ensures
        s0 <= s <= n,
        fwd_pick(n, from, needle, opts, delim, f, s) matches Some(h) && next_from(n, from, needle, opts, delim, f, s0)
            == Some(crate::find::Match { line: fwd_line(n, from, s), col: h.0, len: h.1 }),
        forall|t: int| s0 <= t < s ==> #[trigger] fwd_pick(n, from, needle, opts, delim, f, t) is None,
    decreases n - s0,
{
    if fwd_pick(n, from, needle, opts, delim, f, s0) is Some {
        s0
    } else {
        assert(next_from(n, from, needle, opts, delim, f, s0 + 1) is Some);
        assert(s0 + 1 <= n);
        lemma_next_step(n, from, needle, opts, delim, f, s0 + 1)
    }
}

/// On its first visit a forward pick over hits in column order gives the
/// first hit past the column, the leftmost of those.
proof fn lemma_pick_forward_first_min(h: Seq<(usize, usize)>, k: int, c: usize)
    requires
        0 <= k,
        forall|a: int, b: int| #![trigger h[a], h[b]] 0 <= a < b < h.len() ==> h[a].0 <= h[b].0,
        pick_forward(h, k, true, false, c) is Some,
    ensures
        pick_forward(h, k, true, false, c) matches Some(x) && x.0 > c
            && forall|j: int| k <= j < h.len() && h[j].0 > c ==> x.0 <= #[trigger] h[j].0,
    decreases h.len() - k,
{
    if k < h.len() && h[k].0 <= c {
        lemma_pick_forward_first_min(h, k + 1, c);
    }
}

/// The line the forward search visits at step `s`.
proof fn lemma_fwd_line_value(n: usize, from: TextPos, s: int)
    requires
        n > 0,
        from.line < n,
        0 <= s <= n,
    ensures
        fwd_line(n, from, s) == if from.line + s < n { from.line + s } else { from.line + s - n },
{
    let x = from.line + s;
    if x < n {
        lemma_small_mod(x as nat, n as nat);
    } else {
        lemma_small_mod((x - n) as nat, n as nat);
        lemma_mod_add_multiples_vanish(x - n, n as int);
        assert(n + (x - n) == x);
    }
}

/// Find Next goes to the next match in reading order, wrapping round: when
/// some match starts after `from`, it gives one that starts after `from`
/// with no match starting between the two; when none does, it gives the
/// first match of the document. So repeated Find Next neither stays on one
/// match nor passes over one. (Which lines hold which matches is what
/// `hits_of_line` gives; on each line they come in column order.)
pub proof fn lemma_find_next_is_next_match<F: Fn(usize) -> Option<String>>(
    line_count: usize,
    from: TextPos,
    needle: Seq<char>,
    opts: FindOptions,
    delim: Option<u8>,
    f: F,
)
    requires
        line_count > 0,
        from.line < line_count,
        hits_in_order(line_count, needle, opts, delim, f),
    ensures
        next_from(line_count, from, needle, opts, delim, f, 0) matches Some(m) ==> {
            &&& forall|i: usize, c: usize| #[trigger] hit_at(line_count, needle, opts, delim, f, i, c)
                && reads_after(i, c, from.line, from.col)
                ==> reads_after(m.line, m.col, from.line, from.col) && !reads_after(m.line, m.col, i, c)
            &&& (forall|i: usize, c: usize| hit_at(line_count, needle, opts, delim, f, i, c)
                ==> !reads_after(i, c, from.line, from.col))
                ==> forall|i: usize, c: usize| #[trigger] hit_at(line_count, needle, opts, delim, f, i, c)
                    ==> !reads_after(m.line, m.col, i, c)
        },
{
    let n = line_count;
    let st = from.line;
    assert(start_line(n, from) == st);
    if let Some(m) = next_from(n, from, needle, opts, delim, f, 0) {
        let s = lemma_next_step(n, from, needle, opts, delim, f, 0);
        lemma_fwd_line_value(n, from, s);
        lemma_fwd_line_value(n, from, 0);
        let hm = hits_of_line(f, m.line, needle, opts, delim);
        let hs = hits_of_line(f, st, needle, opts, delim);
        assert(m.line == fwd_line(n, from, s));
        lemma_pick_forward_hit(hm, 0, s == 0, s == n, from.col);
        let jm = choose|j: int| 0 <= j < hm.len() && hm[j] == (m.col, m.len);
        assert(hm[jm].0 == m.col);
        assert(hit_at(n, needle, opts, delim, f, m.line, m.col));
        if s > 0 {
            assert(fwd_pick(n, from, needle, opts, delim, f, 0) is None);
            lemma_pick_forward_first_none(hs, 0, from.col);
            assert(hm.len() > 0 && m.col == hm[0].0);
        } else {
            assert(m.line == st);
            lemma_pick_forward_first_min(hm, 0, from.col);
        }
        assert forall|i: usize, c: usize| #[trigger] hit_at(n, needle, opts, delim, f, i, c) implies
            (reads_after(i, c, st, from.col) ==> reads_after(m.line, m.col, st, from.col) && !reads_after(m.line, m.col, i, c))
            && (s > 0 && !(0 < s < n && st + s < n) ==> !reads_after(m.line, m.col, i, c)) by {
            let h = hits_of_line(f, i, needle, opts, delim);
            let k = choose|k: int| 0 <= k < h.len() && #[trigger] h[k].0 == c;
            if k > 0 {
                assert(h[0].0 <= h[k].0);
            }
            lemma_fwd_lines(n, from, i);
            if i != st {
                let t: int = if i > st { i - st } else { i + n - st };
                assert(fwd_line(n, from, t) == i);
                assert(fwd_pick(n, from, needle, opts, delim, f, t) is Some);
                assert(t >= s);
                if t == s {
                    assert(i == m.line);
                }
            } else if s > 0 {
                assert(c <= from.col);
            }
        }
        if exists|i: usize, c: usize| #[trigger] hit_at(n, needle, opts, delim, f, i, c) && reads_after(i, c, st, from.col) {
        } else {
            assert(!reads_after(m.line, m.col, st, from.col));
            assert(s > 0);
        }
    }
}

/// On each of the first `n` lines the matches start at strictly increasing
/// columns.
pub open spec fn hits_strictly_in_order<F: Fn(usize) -> Option<String>>(n: usize, needle: Seq<char>, opts: FindOptions, delim: Option<u8>, f: F) -> bool {
    forall|i: usize, a: int, b: int|
        #![trigger hits_of_line(f, i, needle, opts, delim)[a], hits_of_line(f, i, needle, opts, delim)[b]]
        i < n && 0 <= a < b < hits_of_line(f, i, needle, opts, delim).len()
            ==> hits_of_line(f, i, needle, opts, delim)[a].0 < hits_of_line(f, i, needle, opts, delim)[b].0
}

/// The start positions (line, column) of the matches on the first `i`
/// lines, line by line and within a line in the order found.
pub open spec fn hit_positions<F: Fn(usize) -> Option<String>>(needle: Seq<char>, opts: FindOptions, delim: Option<u8>, f: F, i: int) -> Seq<(usize, usize)>
    decreases i,
{
    if i <= 0 {
        seq![]
    } else {
        hit_positions(needle, opts, delim, f, i - 1)
            + hits_of_line(f, (i - 1) as usize, needle, opts, delim).map_values(|h: (usize, usize)| ((i - 1) as usize, h.0))
    }
}

/// Where repeated Find Next stands after `i` steps from position `p`.
pub open spec fn find_next_walk<F: Fn(usize) -> Option<String>>(n: usize, needle: Seq<char>, opts: FindOptions, delim: Option<u8>, f: F, p: (usize, usize), i: nat) -> (usize, usize)
    decreases i,
{
    if i == 0 {
        p
    } else {
        let q = find_next_walk(n, needle, opts, delim, f, p, (i - 1) as nat);
        match next_from(n, TextPos { line: q.0, col: q.1 }, needle, opts, delim, f, 0) {
            Some(m) => (m.line, m.col),
            None => q,
        }
    }
}

/// The positions of the first `i` lines hold exactly their matches, in
/// strictly increasing reading order.
proof fn lemma_hit_positions<F: Fn(usize) -> Option<String>>(n: usize, needle: Seq<char>, opts: FindOptions, delim: Option<u8>, f: F, i: int)
    requires
        0 <= i <= n,
        hits_strictly_in_order(n, needle, opts, delim, f),
    ensures
        forall|q: int| 0 <= q < hit_positions(needle, opts, delim, f, i).len() ==> {
            let p = #[trigger] hit_positions(needle, opts, delim, f, i)[q];
            p.0 < i && hit_at(n, needle, opts, delim, f, p.0, p.1)
        },
        forall|l: usize, c: usize| #[trigger] hit_at(n, needle, opts, delim, f, l, c) && l < i ==>
            exists|q: int| 0 <= q < hit_positions(needle, opts, delim, f, i).len()
                && #[trigger] hit_positions(needle, opts, delim, f, i)[q] == (l, c),
        forall|a: int, b: int| 0 <= a < b < hit_positions(needle, opts, delim, f, i).len() ==> {
            let pa = #[trigger] hit_positions(needle, opts, delim, f, i)[a];
            let pb = #[trigger] hit_positions(needle, opts, delim, f, i)[b];
            reads_after(pb.0, pb.1, pa.0, pa.1)
        },
    decreases i,
{
    if i > 0 {
        lemma_hit_positions(n, needle, opts, delim, f, i - 1);
        let prev = hit_positions(needle, opts, delim, f, i - 1);
        let line = (i - 1) as usize;
        let h = hits_of_line(f, line, needle, opts, delim);
        let add = h.map_values(|x: (usize, usize)| (line, x.0));
        let all = hit_positions(needle, opts, delim, f, i);
        assert(all == prev + add);
        assert forall|q: int| 0 <= q < all.len() implies {
            let p = #[trigger] all[q];
            p.0 < i && hit_at(n, needle, opts, delim, f, p.0, p.1)
        } by {
            if q >= prev.len() {
                let k = q - prev.len();
                assert(all[q] == add[k]);
                assert(h[k].0 == all[q].1);
            }
        }
        assert forall|l: usize, c: usize| #[trigger] hit_at(n, needle, opts, delim, f, l, c) && l < i implies
            exists|q: int| 0 <= q < all.len() && #[trigger] all[q] == (l, c) by {
            if l < i - 1 {
                let q = choose|q: int| 0 <= q < prev.len() && #[trigger] prev[q] == (l, c);
                assert(all[q] == (l, c));
            } else {
                let k = choose|k: int| 0 <= k < h.len() && #[trigger] h[k].0 == c;
                assert(all[prev.len() + k] == (l, c));
            }
        }
        assert forall|a: int, b: int| 0 <= a < b < all.len() implies {
            let pa = #[trigger] all[a];
            let pb = #[trigger] all[b];
            reads_after(pb.0, pb.1, pa.0, pa.1)
        } by {
            if b < prev.len() {
                assert(all[a] == prev[a] && all[b] == prev[b]);
            } else if a < prev.len() {
                assert(all[a] == prev[a]);
                assert(prev[a].0 < i - 1);
                assert(all[b] == add[b - prev.len()]);
            } else {
                let ka = a - prev.len();
                let kb = b - prev.len();
                assert(all[a] == add[ka] && all[b] == add[kb]);
                assert(h[ka].0 < h[kb].0);
            }
        }
    }
}

/// From a match at position `L[j]` of the sorted positions `L`, Find Next
/// goes to `L[j + 1]`, and from the last to the first.
proof fn lemma_find_next_step<F: Fn(usize) -> Option<String>>(n: usize, needle: Seq<char>, opts: FindOptions, delim: Option<u8>, f: F, j: int)
    requires
        n > 0,
        hits_strictly_in_order(n, needle, opts, delim, f),
        0 <= j < hit_positions(needle, opts, delim, f, n as int).len(),
    ensures ({
        let l = hit_positions(needle, opts, delim, f, n as int);
        let p = l[j];
        next_from(n, TextPos { line: p.0, col: p.1 }, needle, opts, delim, f, 0) matches Some(m)
            && (m.line, m.col) == l[(j + 1) % (l.len() as int)]
    }),
{
    let l = hit_positions(needle, opts, delim, f, n as int);
    let k = l.len() as int;
    lemma_hit_positions(n, needle, opts, delim, f, n as int);
    let p = l[j];
    let from = TextPos { line: p.0, col: p.1 };
    assert(p.0 < n && hit_at(n, needle, opts, delim, f, p.0, p.1));
    lemma_find_next_finds_any_match(n, from, needle, opts, delim, f);
    let hp = hits_of_line(f, p.0, needle, opts, delim);
    assert(hp.len() > 0);
    assert(next_from(n, from, needle, opts, delim, f, 0) is Some);
    let m = next_from(n, from, needle, opts, delim, f, 0)->0;
    assert(hits_in_order(n, needle, opts, delim, f));
    lemma_find_next_is_next_match(n, from, needle, opts, delim, f);
    let hm = hits_of_line(f, m.line, needle, opts, delim);
    let km = choose|q: int| 0 <= q < hm.len() && #[trigger] hm[q] == (m.col, m.len);
    assert(hm[km].0 == m.col);
    assert(hit_at(n, needle, opts, delim, f, m.line, m.col));
    let qm = choose|q: int| 0 <= q < k && #[trigger] l[q] == (m.line, m.col);
    if j + 1 < k {
        lemma_small_mod((j + 1) as nat, k as nat);
        let nx = l[j + 1];
        assert(reads_after(nx.0, nx.1, p.0, p.1));
        assert(hit_at(n, needle, opts, delim, f, nx.0, nx.1));
        assert(reads_after(m.line, m.col, p.0, p.1) && !reads_after(m.line, m.col, nx.0, nx.1));
        if qm <= j {
            if qm < j {
                assert(reads_after(p.0, p.1, l[qm].0, l[qm].1));
            }
        } else if qm > j + 1 {
            assert(reads_after(l[qm].0, l[qm].1, nx.0, nx.1));
        }
        assert(qm == j + 1);
    } else {
        assert(j + 1 == k);
        assert((j + 1) % k == 0) by {
            lemma_small_mod(0, k as nat);
            lemma_mod_add_multiples_vanish(0, k);
        }
        assert forall|i: usize, c: usize| hit_at(n, needle, opts, delim, f, i, c)
            implies !reads_after(i, c, p.0, p.1) by {
            let q = choose|q: int| 0 <= q < k && #[trigger] l[q] == (i, c);
            if q < j {
                assert(reads_after(p.0, p.1, l[q].0, l[q].1));
            }
        }
        let f0 = l[0];
        assert(hit_at(n, needle, opts, delim, f, f0.0, f0.1));
        assert(!reads_after(m.line, m.col, f0.0, f0.1));
        if qm > 0 {
            assert(reads_after(l[qm].0, l[qm].1, f0.0, f0.1));
        }
        assert(qm == 0);
    }
}

/// Repeated Find Next from a match visits the matches in reading order,
/// wrapping round: with `L` the start positions of all matches in reading
/// order and Find Next started on `L[j]`, step `i` stands on
/// `L[(j + i) mod |L|]`. So the first `|L|` steps visit every match once
/// each, and step `|L|` is back on `L[j]`. A step is what `find_next` gives
/// (`next_from`, for a getter that answers each line the same way every
/// time). On each line the matches start at strictly increasing columns.
pub proof fn lemma_find_next_cycles<F: Fn(usize) -> Option<String>>(n: usize, needle: Seq<char>, opts: FindOptions, delim: Option<u8>, f: F, j: int, i: nat)
    requires
        n > 0,
        hits_strictly_in_order(n, needle, opts, delim, f),
        0 <= j < hit_positions(needle, opts, delim, f, n as int).len(),
    ensures
        forall|a: int, b: int| 0 <= a < b < hit_positions(needle, opts, delim, f, n as int).len() ==> {
            let pa = #[trigger] hit_positions(needle, opts, delim, f, n as int)[a];
            let pb = #[trigger] hit_positions(needle, opts, delim, f, n as int)[b];
            reads_after(pb.0, pb.1, pa.0, pa.1)
        },
        forall|l: usize, c: usize| #[trigger] hit_at(n, needle, opts, delim, f, l, c) <==>
            exists|q: int| 0 <= q < hit_positions(needle, opts, delim, f, n as int).len()
                && #[trigger] hit_positions(needle, opts, delim, f, n as int)[q] == (l, c),
        find_next_walk(n, needle, opts, delim, f, hit_positions(needle, opts, delim, f, n as int)[j], i)
            == hit_positions(needle, opts, delim, f, n as int)[(j + i) % (hit_positions(needle, opts, delim, f, n as int).len() as int)],
    decreases i,
{
    let l = hit_positions(needle, opts, delim, f, n as int);
    let k = l.len() as int;
    lemma_hit_positions(n, needle, opts, delim, f, n as int);
    assert forall|x: usize, c: usize| #[trigger] hit_at(n, needle, opts, delim, f, x, c) <==>
        exists|q: int| 0 <= q < l.len() && #[trigger] l[q] == (x, c) by {
        if exists|q: int| 0 <= q < l.len() && #[trigger] l[q] == (x, c) {
            let q = choose|q: int| 0 <= q < l.len() && #[trigger] l[q] == (x, c);
            assert(hit_at(n, needle, opts, delim, f, l[q].0, l[q].1));
        }
    }
    if i == 0 {
        lemma_small_mod(j as nat, k as nat);
    } else {
        lemma_find_next_cycles(n, needle, opts, delim, f, j, (i - 1) as nat);
        let r = (j + i - 1) % k;
        assert(0 <= r < k);
        lemma_find_next_step(n, needle, opts, delim, f, r);
        assert((r + 1) % k == (j + i) % k) by {
            if k > 1 {
                vstd::arithmetic::div_mod::lemma_add_mod_noop(j + i - 1, 1, k);
                lemma_small_mod(1, k as nat);
            } else {
                assert(k == 1);
                assert((r + 1) % k == 0);
                assert((j + i) % k == 0);
            }
        }
    }
}

/// The step at which the backward search from step `s0` finds what it gives.
proof fn lemma_prev_step<F: Fn(usize) -> Option<String>>(n: usize, from: TextPos, needle: Seq<char>, opts: FindOptions, delim: Option<u8>, f: F, s0: int) -> (s: int)
    requires
        n > 0,
        0 <= s0 <= n,
        prev_from(n, from, needle, opts, delim, f, s0) is Some,
    ensures
        s0 <= s <= n,
        bwd_pick(n, from, needle, opts, delim, f, s) matches Some(h) && prev_from(n, from, needle, opts, delim, f, s0)
            == Some(crate::find::Match { line: bwd_line(n, from, s), col: h.0, len: h.1 }),
        forall|t: int| s0 <= t < s ==> #[trigger] bwd_pick(n, from, needle, opts, delim, f, t) is None,
    decreases n - s0,
{
    if bwd_pick(n, from, needle, opts, delim, f, s0) is Some {
        s0
    } else {
        assert(prev_from(n, from, needle, opts, delim, f, s0 + 1) is Some);
        assert(s0 + 1 <= n);
        lemma_prev_step(n, from, needle, opts, delim, f, s0 + 1)
    }
}

/// On its first visit a backward pick over hits in column order gives the
/// last hit before the column, the rightmost of those.
proof fn lemma_pick_backward_first_max(h: Seq<(usize, usize)>, k: int, c: usize)
    requires
        k < h.len(),
        forall|a: int, b: int| #![trigger h[a], h[b]] 0 <= a < b < h.len() ==> h[a].0 <= h[b].0,
        pick_backward(h, k, true, false, c) is Some,
    ensures
        pick_backward(h, k, true, false, c) matches Some(x) && x.0 < c
            && forall|j: int| 0 <= j <= k && h[j].0 < c ==> #[trigger] h[j].0 <= x.0,
    decreases k + 1,
{
    if k >= 0 && h[k].0 >= c {
        lemma_pick_backward_first_max(h, k - 1, c);
    }
}

/// The line the backward search visits at step `s`.
proof fn lemma_bwd_line_value(n: usize, from: TextPos, s: int)
    requires
        n > 0,
        from.line < n,
        0 <= s <= n,
    ensures
        bwd_line(n, from, s) == if s == n || s <= from.line { from.line - (if s == n { 0 } else { s }) } else { from.line + n - s },
{
    let st = from.line as int;
    if s < n {
        lemma_small_mod(s as nat, n as nat);
        let x = st + n - s;
        if s <= st {
            lemma_small_mod((x - n) as nat, n as nat);
            lemma_mod_add_multiples_vanish(x - n, n as int);
            assert(n + (x - n) == x);
        } else {
            lemma_small_mod(x as nat, n as nat);
        }
    } else {
        lemma_mod_add_multiples_vanish(0, n as int);
        lemma_small_mod(0, n as nat);
        assert(n as int % n as int == 0);
        lemma_small_mod(st as nat, n as nat);
        lemma_mod_add_multiples_vanish(st, n as int);
        assert(st + n - s % (n as int) == n + st);
    }
}

/// Find Previous goes to the previous match in reading order, wrapping
/// round: when some match starts before `from`, it gives one that starts
/// before `from` with no match starting between the two; when none does, it
/// gives the last match of the document. (On each line the matches come in
/// column order.)
pub proof fn lemma_find_prev_is_prev_match<F: Fn(usize) -> Option<String>>(
    line_count: usize,
    from: TextPos,
    needle: Seq<char>,
    opts: FindOptions,
    delim: Option<u8>,
    f: F,
)
    requires
        line_count > 0,
        from.line < line_count,
        hits_in_order(line_count, needle, opts, delim, f),
    ensures
        prev_from(line_count, from, needle, opts, delim, f, 0) matches Some(m) ==> {
            &&& forall|i: usize, c: usize| #[trigger] hit_at(line_count, needle, opts, delim, f, i, c)
                && reads_after(from.line, from.col, i, c)
                ==> reads_after(from.line, from.col, m.line, m.col) && !reads_after(i, c, m.line, m.col)
            &&& (forall|i: usize, c: usize| hit_at(line_count, needle, opts, delim, f, i, c)
                ==> !reads_after(from.line, from.col, i, c))
                ==> forall|i: usize, c: usize| #[trigger] hit_at(line_count, needle, opts, delim, f, i, c)
                    ==> !reads_after(i, c, m.line, m.col)
        },
{
    let n = line_count;
    let st = from.line;
    assert(start_line(n, from) == st);
    if let Some(m) = prev_from(n, from, needle, opts, delim, f, 0) {
        let s = lemma_prev_step(n, from, needle, opts, delim, f, 0);
        lemma_bwd_line_value(n, from, s);
        lemma_bwd_line_value(n, from, 0);
        let hm = hits_of_line(f, m.line, needle, opts, delim);
        let hs = hits_of_line(f, st, needle, opts, delim);
        assert(m.line == bwd_line(n, from, s));
        lemma_pick_backward_hit(hm, hm.len() - 1, s == 0, s == n, from.col);
        let jm = choose|j: int| 0 <= j <= hm.len() - 1 && hm[j] == (m.col, m.len);
        assert(hm[jm].0 == m.col);
        assert(hit_at(n, needle, opts, delim, f, m.line, m.col));
        if s > 0 {
            assert(bwd_pick(n, from, needle, opts, delim, f, 0) is None);
            if hs.len() > 0 {
                lemma_pick_backward_first_none(hs, hs.len() - 1, from.col);
            }
            assert(hm.len() > 0 && m.col == hm[hm.len() - 1].0);
        } else {
            assert(m.line == st);
            lemma_pick_backward_first_max(hm, hm.len() - 1, from.col);
        }
        assert forall|i: usize, c: usize| #[trigger] hit_at(n, needle, opts, delim, f, i, c) implies
            (reads_after(st, from.col, i, c) ==> reads_after(st, from.col, m.line, m.col) && !reads_after(i, c, m.line, m.col))
            && (s > 0 && !(0 < s < n && s <= st) ==> !reads_after(i, c, m.line, m.col)) by {
            let h = hits_of_line(f, i, needle, opts, delim);
            let k = choose|k: int| 0 <= k < h.len() && #[trigger] h[k].0 == c;
            if k < h.len() - 1 {
                assert(h[k].0 <= h[h.len() - 1].0);
            }
            lemma_bwd_lines(n, from, i);
            if i != st {
                let t: int = if st > i { st - i } else { st + n - i };
                assert(bwd_line(n, from, t) == i);
                assert(bwd_pick(n, from, needle, opts, delim, f, t) is Some);
                assert(t >= s);
                if t == s {
                    assert(i == m.line);
                }
            } else if s > 0 {
                assert(c >= from.col);
            }
        }
        if exists|i: usize, c: usize| #[trigger] hit_at(n, needle, opts, delim, f, i, c) && reads_after(st, from.col, i, c) {
        } else {
            assert(!reads_after(st, from.col, m.line, m.col));
            assert(s > 0);
        }
    }
}

} // verus!
