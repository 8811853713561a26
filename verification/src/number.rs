//! Recognising the text that `str::trim` followed by `f64::from_str` accepts,
//! which is how the header detection decides whether a field is numeric.
use vstd::prelude::*;
use crate::chars::{chars_of, char_is_whitespace, is_white_space};

verus! {

pub open spec fn is_digit(c: char) -> bool {
    '0' <= c <= '9'
}

pub open spec fn all_digits(s: Seq<char>) -> bool {
    forall|i: int| 0 <= i < s.len() ==> is_digit(#[trigger] s[i])
}

/// ASCII lower-casing of one character.
pub open spec fn ascii_lower_char(c: char) -> char {
    if 'A' <= c <= 'Z' { ((c as u32) + 32) as char } else { c }
}

/// `s` equals the lower-case word `w` ignoring ASCII case.
pub open spec fn eq_ignore_case(s: Seq<char>, w: Seq<char>) -> bool {
    s.len() == w.len() && forall|i: int| 0 <= i < s.len() ==> ascii_lower_char(#[trigger] s[i]) == w[i]
}

/// Index of the first `.` in `s` at or after `i`, or `s.len()`.
pub open spec fn find_dot(s: Seq<char>, i: int) -> int
    decreases s.len() - i,
{
    if i >= s.len() { s.len() as int } else if s[i] == '.' { i } else { find_dot(s, i + 1) }
}

/// Index of the first `e`/`E` in `s` at or after `i`, or `s.len()`.
pub open spec fn find_exp(s: Seq<char>, i: int) -> int
    decreases s.len() - i,
{
    if i >= s.len() { s.len() as int } else if s[i] == 'e' || s[i] == 'E' { i } else { find_exp(s, i + 1) }
}

/// `Digit+ | Digit+ '.' Digit* | Digit* '.' Digit+`
pub open spec fn mantissa_ok(m: Seq<char>) -> bool {
    let d = find_dot(m, 0);
    if d == m.len() {
        m.len() >= 1 && all_digits(m)
    } else {
        m.len() >= 2 && all_digits(m.take(d)) && all_digits(m.skip(d + 1))
    }
}

pub open spec fn is_sign(c: char) -> bool {
    c == '+' || c == '-'
}

/// `Sign? Digit+`
pub open spec fn exponent_ok(e: Seq<char>) -> bool {
    let body = if e.len() > 0 && is_sign(e[0]) { e.skip(1) } else { e };
    body.len() >= 1 && all_digits(body)
}

/// `Number ::= Mantissa ('e' Sign? Digit+)?`, the `e` in either case.
pub open spec fn number_ok(b: Seq<char>) -> bool {
    let k = find_exp(b, 0);
    mantissa_ok(b.take(k)) && (k == b.len() || exponent_ok(b.skip(k + 1)))
}

/// The grammar documented for `f64::from_str`:
/// `Sign? ( 'inf' | 'infinity' | 'nan' | Number )`, letters in any case.
pub open spec fn is_float_text(s: Seq<char>) -> bool {
    let b = if s.len() > 0 && is_sign(s[0]) { s.skip(1) } else { s };
    ||| eq_ignore_case(b, seq!['i', 'n', 'f'])
    ||| eq_ignore_case(b, seq!['i', 'n', 'f', 'i', 'n', 'i', 't', 'y'])
    ||| eq_ignore_case(b, seq!['n', 'a', 'n'])
    ||| number_ok(b)
}

/// Index of the first non-whitespace character at or after `i`.
pub open spec fn trim_start_at(s: Seq<char>, i: int) -> int
    decreases s.len() - i,
{
    if i >= s.len() { s.len() as int } else if !is_white_space(s[i]) { i } else { trim_start_at(s, i + 1) }
}

/// One past the last non-whitespace character before `j`.
pub open spec fn trim_end_at(s: Seq<char>, j: int) -> int
    decreases j,
{
    if j <= 0 { 0 } else if !is_white_space(s[j - 1]) { j } else { trim_end_at(s, j - 1) }
}

/// `str::trim`: `s` without leading and trailing Unicode whitespace.
pub open spec fn trimmed(s: Seq<char>) -> Seq<char> {
    let a = trim_start_at(s, 0);
    let b = trim_end_at(s, s.len() as int);
    if a < b { s.subrange(a, b) } else { seq![] }
}

/// A header-detection field counts as numeric when its trimmed text parses as an `f64`.
pub open spec fn is_numeric_text(s: Seq<char>) -> bool {
    is_float_text(trimmed(s))
}

proof fn lemma_trim_start(s: Seq<char>, i: int)
    requires
        0 <= i <= s.len(),
    ensures
        i <= trim_start_at(s, i) <= s.len(),
    decreases s.len() - i,
{
    if i < s.len() && is_white_space(s[i]) {
        lemma_trim_start(s, i + 1);
    }
}

proof fn lemma_trim_end(s: Seq<char>, j: int)
    requires
        0 <= j <= s.len(),
    ensures
        0 <= trim_end_at(s, j) <= j,
    decreases j,
{
    if j > 0 && is_white_space(s[j - 1]) {
        lemma_trim_end(s, j - 1);
    }
}

fn digits_only(cs: &Vec<char>, lo: usize, hi: usize) -> (r: bool)
    requires
        lo <= hi <= cs@.len(),
    ensures
        r == all_digits(cs@.subrange(lo as int, hi as int)),
{
    let mut i = lo;
    while i < hi
        invariant
            lo <= i <= hi <= cs@.len(),
            forall|k: int| lo <= k < i ==> is_digit(cs@[k]),
        decreases hi - i,
    {
        if !('0' <= cs[i] && cs[i] <= '9') {
            assert(!is_digit(cs@.subrange(lo as int, hi as int)[i - lo]));
            return false;
        }
        i += 1;
    }
    assert forall|k: int| 0 <= k < hi - lo implies is_digit(#[trigger] cs@.subrange(lo as int, hi as int)[k]) by {
        assert(cs@.subrange(lo as int, hi as int)[k] == cs@[lo + k]);
    }
    true
}

fn lower_char(c: char) -> (r: char)
    ensures
        r == ascii_lower_char(c),
{
    if 'A' <= c && c <= 'Z' {
        let u = (c as u32) + 32;
        assert(0x61 <= u <= 0x7A);
        char_from_ascii(u as u8)
    } else {
        c
    }
}

fn char_from_ascii(b: u8) -> (c: char)
    requires
        b < 128,
    ensures
        c as u32 == b as u32,
{
    b as char
}

fn matches_word(cs: &Vec<char>, lo: usize, hi: usize, w: &[char]) -> (r: bool)
    requires
        lo <= hi <= cs@.len(),
    ensures
        r == eq_ignore_case(cs@.subrange(lo as int, hi as int), w@),
{
    if hi - lo != w.len() {
        return false;
    }
    let mut i: usize = 0;
    while i < w.len()
        invariant
            hi - lo == w@.len(),
            lo <= hi <= cs@.len(),
            0 <= i <= w@.len(),
            forall|k: int| 0 <= k < i ==> ascii_lower_char(cs@[lo + k]) == w@[k],
        decreases w.len() - i,
    {
        if lower_char(cs[lo + i]) != w[i] {
            assert(cs@.subrange(lo as int, hi as int)[i as int] == cs@[lo + i]);
            return false;
        }
        i += 1;
    }
    assert forall|k: int| 0 <= k < hi - lo implies ascii_lower_char(#[trigger] cs@.subrange(lo as int, hi as int)[k]) == w@[k] by {
        assert(cs@.subrange(lo as int, hi as int)[k] == cs@[lo + k]);
    }
    true
}

/// First index in `[lo, hi)` of `.` (or of `e`/`E` when `exp`), else `hi`.
fn find_in(cs: &Vec<char>, lo: usize, hi: usize, exp: bool) -> (r: usize)
    requires
        lo <= hi <= cs@.len(),
    ensures
        lo <= r <= hi,
        !exp ==> r - lo == find_dot(cs@.subrange(lo as int, hi as int), 0),
        exp ==> r - lo == find_exp(cs@.subrange(lo as int, hi as int), 0),
{
    let ghost s = cs@.subrange(lo as int, hi as int);
    let mut i = lo;
    while i < hi
        invariant
            lo <= i <= hi <= cs@.len(),
            s == cs@.subrange(lo as int, hi as int),
            !exp ==> find_dot(s, 0) == find_dot(s, i - lo),
            exp ==> find_exp(s, 0) == find_exp(s, i - lo),
        decreases hi - i,
    {
        let c = cs[i];
        assert(s[i - lo] == c);
        if (!exp && c == '.') || (exp && (c == 'e' || c == 'E')) {
            return i;
        }
        i += 1;
    }
    i
}

fn mantissa_in(cs: &Vec<char>, lo: usize, hi: usize) -> (r: bool)
    requires
        lo <= hi <= cs@.len(),
    ensures
        r == mantissa_ok(cs@.subrange(lo as int, hi as int)),
{
    let ghost m = cs@.subrange(lo as int, hi as int);
    let d = find_in(cs, lo, hi, false);
    if d == hi {
        hi - lo >= 1 && digits_only(cs, lo, hi)
    } else {
        assert(m.take(d - lo) == cs@.subrange(lo as int, d as int));
        assert(m.skip(d - lo + 1) == cs@.subrange(d + 1, hi as int));
        hi - lo >= 2 && digits_only(cs, lo, d) && digits_only(cs, d + 1, hi)
    }
}

fn exponent_in(cs: &Vec<char>, lo: usize, hi: usize) -> (r: bool)
    requires
        lo <= hi <= cs@.len(),
    ensures
        r == exponent_ok(cs@.subrange(lo as int, hi as int)),
{
    let ghost e = cs@.subrange(lo as int, hi as int);
    let start = if lo < hi && (cs[lo] == '+' || cs[lo] == '-') { lo + 1 } else { lo };
    assert(lo < hi ==> e[0] == cs@[lo as int]);
    assert(start > lo ==> e.skip(1) == cs@.subrange(start as int, hi as int));
    hi - start >= 1 && digits_only(cs, start, hi)
}

fn float_text_in(cs: &Vec<char>, lo: usize, hi: usize) -> (r: bool)
    requires
        lo <= hi <= cs@.len(),
    ensures
        r == is_float_text(cs@.subrange(lo as int, hi as int)),
{
    let ghost s = cs@.subrange(lo as int, hi as int);
    let b = if lo < hi && (cs[lo] == '+' || cs[lo] == '-') { lo + 1 } else { lo };
    assert(lo < hi ==> s[0] == cs@[lo as int]);
    assert(b > lo ==> s.skip(1) == cs@.subrange(b as int, hi as int));
    let ghost body = cs@.subrange(b as int, hi as int);
    let inf: [char; 3] = ['i', 'n', 'f'];
    let infinity: [char; 8] = ['i', 'n', 'f', 'i', 'n', 'i', 't', 'y'];
    let nan: [char; 3] = ['n', 'a', 'n'];
    assert(inf@ == seq!['i', 'n', 'f']);
    assert(infinity@ == seq!['i', 'n', 'f', 'i', 'n', 'i', 't', 'y']);
    assert(nan@ == seq!['n', 'a', 'n']);
    if matches_word(cs, b, hi, &inf) || matches_word(cs, b, hi, &infinity) || matches_word(cs, b, hi, &nan) {
        return true;
    }
    let k = find_in(cs, b, hi, true);
    assert(body.take(k - b) == cs@.subrange(b as int, k as int));
    if !mantissa_in(cs, b, k) {
        return false;
    }
    if k == hi {
        return true;
    }
    assert(body.skip(k - b + 1) == cs@.subrange(k + 1, hi as int));
    exponent_in(cs, k + 1, hi)
}

/// Whether `s`, trimmed, parses as an `f64` (the header detector's notion
/// of a numeric field).
pub fn is_numeric(s: &str) -> (r: bool)
    ensures
        r == is_numeric_text(s@),
{
    let cs = chars_of(s);
    let n = cs.len();
    let mut a: usize = 0;
    while a < n && char_is_whitespace(cs[a])
        invariant
            0 <= a <= n == cs@.len(),
            cs@ == s@,
            trim_start_at(cs@, 0) == trim_start_at(cs@, a as int),
        decreases n - a,
    {
        a += 1;
    }
    let mut b: usize = n;
    while b > 0 && char_is_whitespace(cs[b - 1])
        invariant
            0 <= b <= n == cs@.len(),
            cs@ == s@,
            trim_end_at(cs@, n as int) == trim_end_at(cs@, b as int),
        decreases b,
    {
        b -= 1;
    }
    proof {
        lemma_trim_start(cs@, 0);
        lemma_trim_end(cs@, n as int);
    }
    if a < b {
        float_text_in(&cs, a, b)
    } else {
        let empty: Vec<char> = Vec::new();
        assert(empty@.subrange(0, 0) =~= Seq::<char>::empty());
        float_text_in(&empty, 0, 0)
    }
}

} // verus!
