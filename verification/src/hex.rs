//! Hex mode: layout arithmetic, click mapping, query parsing, byte search and
//! the in-memory edit buffer with undo and redo.
use vstd::prelude::*;
use crate::chars::{chars_of, push_char, char_is_whitespace, hex_digit_value, is_white_space, hex_value};

verus! {

/// Bytes shown on one row.
pub const BYTES_PER_ROW: usize = 32;

/// Largest file size that enters edit mode without asking first.
pub const HEX_EDIT_CONFIRM_BYTES: u64 = 536870912;

/// Number of rows needed for `len` bytes; an empty file still has one row.
pub open spec fn spec_row_count(len: nat) -> nat {
    if len == 0 { 1 } else { (len + 31) / 32 }
}

/// Total number of rows (an empty file has one row for the caret).
pub fn row_count(len: u64) -> (r: u64)
    ensures
        r == spec_row_count(len as nat),
{
    if len == 0 {
        1
    } else {
        len / 32 + if len % 32 != 0 { 1 } else { 0 }
    }
}

/// The upper-case hexadecimal digit for `d < 16`.
pub open spec fn hex_digit(d: nat) -> char {
    if d < 10 { (48 + d) as char } else { (55 + d) as char }
}

/// Upper-case hexadecimal representation of `n` without leading zeros.
pub open spec fn hex_upper(n: nat) -> Seq<char>
    decreases n,
{
    if n < 16 { seq![hex_digit(n)] } else { hex_upper(n / 16).push(hex_digit(n % 16)) }
}

/// Width of the offset column: the digits of the last offset, at least six.
pub open spec fn spec_offset_width(len: nat) -> nat {
    let last: nat = if len == 0 { 0 } else { (len - 1) as nat };
    if hex_upper(last).len() < 6 { 6 } else { hex_upper(last).len() }
}

fn digit_char(d: u64) -> (c: char)
    requires
        d < 16,
    ensures
        c == hex_digit(d as nat),
{
    if d < 10 {
        ((48 + d) as u8) as char
    } else {
        ((55 + d) as u8) as char
    }
}

/// Hexadecimal digits needed for the last offset of a file of `len` bytes,
/// but never fewer than six, so that every row has the same width.
pub fn offset_width(len: u64) -> (w: usize)
    ensures
        w == spec_offset_width(len as nat),
{
    let last: u64 = if len == 0 { 0 } else { len - 1 };
    let mut cur: u64 = last;
    let mut count: usize = 1;
    while cur >= 16
        invariant
            hex_upper(last as nat).len() == hex_upper(cur as nat).len() + count - 1,
            1 <= count,
            cur <= last,
        decreases cur,
    {
        proof {
            lemma_hex_upper_len_bound(last as nat);
            lemma_hex_upper_len_bound(cur as nat);
            lemma_hex_upper_len_bound((cur / 16) as nat);
        }
        cur = cur / 16;
        count = count + 1;
    }
    if count < 6 { 6 } else { count }
}

spec fn pow16(k: nat) -> nat
    decreases k,
{
    if k == 0 { 1 } else { 16 * pow16((k - 1) as nat) }
}

proof fn lemma_hex_len_pow(n: nat, k: nat)
    requires
        k >= 1,
        n < pow16(k),
    ensures
        hex_upper(n).len() <= k,
    decreases k,
{
    if n >= 16 {
        let p = pow16((k - 1) as nat);
        assert(n < 16 * p);
        assert(n / 16 < p) by (nonlinear_arith)
            requires n < 16 * p;
        if k == 1 {
            assert(false);
        } else {
            lemma_hex_len_pow(n / 16, (k - 1) as nat);
        }
    }
}

/// A `u64` has at most sixteen hexadecimal digits.
proof fn lemma_hex_upper_len_bound(n: nat)
    requires
        n <= u64::MAX,
    ensures
        1 <= hex_upper(n).len() <= 16,
        n < 16 ==> hex_upper(n).len() == 1,
        n >= 16 ==> hex_upper(n).len() == hex_upper(n / 16).len() + 1,
{
    reveal_with_fuel(pow16, 17);
    assert(pow16(16) == 0x1_0000_0000_0000_0000);
    lemma_hex_len_pow(n, 16);
    if n >= 16 {
        lemma_hex_len_pow(n, 16);
    }
    lemma_hex_len_pos(n);
}

proof fn lemma_hex_len_pos(n: nat)
    ensures
        hex_upper(n).len() >= 1,
    decreases n,
{
    if n >= 16 {
        lemma_hex_len_pos(n / 16);
    }
}

/// `n` left-padded with zeros to at least `width` characters.
pub open spec fn zero_padded(digits: Seq<char>, width: nat) -> Seq<char> {
    Seq::new(if digits.len() < width { (width - digits.len()) as nat } else { 0 }, |i: int| '0') + digits
}

/// Upper-case hexadecimal start offset of `row`, zero-padded to `width` digits.
pub fn format_offset(row: u64, width: usize) -> (s: String)
    requires
        row * 32 <= u64::MAX,
    ensures
        s@ == zero_padded(hex_upper((row * 32) as nat), width as nat),
{
    let v: u64 = row * 32;
    let mut digits: Vec<char> = Vec::new();
    let mut cur: u64 = v;
    while cur >= 16
        invariant
            hex_upper(v as nat) == hex_upper(cur as nat) + digits@,
            digits@.len() <= 16,
        decreases cur,
    {
        proof { lemma_hex_upper_len_bound(v as nat); lemma_hex_upper_len_bound(cur as nat); }
        let d = digit_char(cur % 16);
        proof {
            assert(hex_upper(cur as nat) == hex_upper((cur / 16) as nat).push(d));
            assert(hex_upper((cur / 16) as nat).push(d) + digits@ == hex_upper((cur / 16) as nat) + (seq![d] + digits@));
        }
        digits.insert(0, d);
        cur = cur / 16;
    }
    let d = digit_char(cur);
    digits.insert(0, d);
    proof { lemma_hex_upper_len_bound(v as nat); }
    let mut out = String::new();
    let n: usize = digits.len();
    let mut pad: usize = if n < width { width - n } else { 0 };
    let ghost padn = pad;
    while pad > 0
        invariant
            pad <= padn,
            out@ == Seq::new((padn - pad) as nat, |i: int| '0'),
        decreases pad,
    {
        push_char(&mut out, '0');
        pad -= 1;
        assert(out@ =~= Seq::new((padn - pad) as nat, |i: int| '0'));
    }
    let mut i: usize = 0;
    while i < n
        invariant
            0 <= i <= n == digits@.len(),
            out@ == Seq::new(padn as nat, |j: int| '0') + digits@.subrange(0, i as int),
        decreases n - i,
    {
        push_char(&mut out, digits[i]);
        i += 1;
        assert(digits@.subrange(0, i as int) == digits@.subrange(0, i - 1).push(digits@[i - 1]));
    }
    assert(digits@.subrange(0, n as int) == digits@);
    assert(out@ =~= zero_padded(hex_upper((row * 32) as nat), width as nat));
    out
}

/// Character panel: printable ASCII (0x20..=0x7E) as itself, anything else as '.'.
pub fn ascii_char(b: u8) -> (c: char)
    ensures
        c == (if 0x20 <= b <= 0x7E { b as char } else { '.' }),
{
    if 0x20 <= b && b <= 0x7E {
        b as char
    } else {
        '.'
    }
}

/// Hex panel column to (byte index, high nibble?). Byte `i` occupies the three
/// columns `[3i, 3i+3)`; only the first of them is the high nibble.
pub fn hex_click_byte(char_col: usize) -> (r: Option<(usize, bool)>)
    ensures
        r == (if char_col / 3 >= BYTES_PER_ROW { None } else { Some(((char_col / 3) as usize, char_col % 3 == 0)) }),
{
    let byte: usize = char_col / 3;
    if byte >= BYTES_PER_ROW {
        return None;
    }
    Some((byte, char_col % 3 == 0))
}

/// Character panel column to byte index (one column per byte).
pub fn ascii_click_byte(char_col: usize) -> (r: Option<usize>)
    ensures
        r == (if char_col < BYTES_PER_ROW { Some(char_col) } else { None }),
{
    if char_col < BYTES_PER_ROW {
        Some(char_col)
    } else {
        None
    }
}

/// Nibble typing: replaces the high (or low) four bits of `byte` by those of `nibble`.
pub fn apply_nibble(byte: u8, high: bool, nibble: u8) -> (r: u8)
    ensures
        high ==> r / 16 == nibble % 16 && r % 16 == byte % 16,
        !high ==> r / 16 == byte / 16 && r % 16 == nibble % 16,
{
    if high {
        let r: u8 = (nibble << 4) | (byte & 0x0F);
        assert(r / 16 == nibble % 16 && r % 16 == byte % 16) by (bit_vector)
            requires r == (nibble << 4) | (byte & 0x0F);
        r
    } else {
        let r: u8 = (byte & 0xF0) | (nibble & 0x0F);
        assert(r / 16 == byte / 16 && r % 16 == nibble % 16) by (bit_vector)
            requires r == (byte & 0xF0) | (nibble & 0x0F);
        r
    }
}


/// The hexadecimal digits of a query with whitespace skipped, or `None` as
/// soon as a character is neither whitespace nor a hexadecimal digit.
pub open spec fn query_nibbles(s: Seq<char>) -> Option<Seq<u8>>
    decreases s.len(),
{
    if s.len() == 0 {
        Some(seq![])
    } else {
        match query_nibbles(s.drop_last()) {
            None => None,
            Some(n) => if is_white_space(s.last()) {
                Some(n)
            } else {
                match hex_value(s.last()) {
                    Some(v) => Some(n.push(v)),
                    None => None,
                }
            },
        }
    }
}

/// Consecutive pairs of nibbles as bytes (high nibble first).
pub open spec fn pack_nibbles(n: Seq<u8>) -> Seq<u8> {
    Seq::new(n.len() / 2, |i: int| (n[2 * i] * 16 + n[2 * i + 1]) as u8)
}

/// The bytes a hex search query denotes: an even, non-zero number of hex
/// digits, whitespace ignored.
pub open spec fn spec_parse_hex_query(s: Seq<char>) -> Option<Seq<u8>> {
    match query_nibbles(s) {
        None => None,
        Some(n) => if n.len() == 0 || n.len() % 2 == 1 { None } else { Some(pack_nibbles(n)) },
    }
}

/// Parses the hex search box: hexadecimal digits in pairs, whitespace ignored.
/// An odd number of digits, any other character, or no digits at all give `None`.
pub fn parse_hex_query(s: &str) -> (r: Option<Vec<u8>>)
    ensures
        match spec_parse_hex_query(s@) {
            None => r is None,
            Some(b) => r matches Some(v) && v@ == b,
        },
{
    let cs = chars_of(s);
    let mut nibbles: Vec<u8> = Vec::new();
    let mut i: usize = 0;
    while i < cs.len()
        invariant
            0 <= i <= cs@.len(),
            cs@ == s@,
            query_nibbles(cs@.take(i as int)) == Some(nibbles@),
            forall|k: int| 0 <= k < nibbles@.len() ==> nibbles@[k] < 16,
        decreases cs.len() - i,
    {
        let c = cs[i];
        assert(cs@.take(i + 1).drop_last() == cs@.take(i as int));
        if char_is_whitespace(c) {
            i += 1;
            continue;
        }
        match hex_digit_value(c) {
            Some(v) => {
                nibbles.push(v);
            },
            None => {
                proof { lemma_query_nibbles_none_extends(cs@, i as int + 1); }
                assert(cs@.take(cs@.len() as int) == cs@);
                return None;
            },
        }
        i += 1;
    }
    assert(cs@.take(cs@.len() as int) == cs@);
    if nibbles.len() == 0 || nibbles.len() % 2 == 1 {
        return None;
    }
    let mut out: Vec<u8> = Vec::new();
    let mut j: usize = 0;
    let count: usize = nibbles.len();
    let half: usize = count / 2;
    while j < half
        invariant
            0 <= j <= half,
            half == nibbles@.len() / 2,
            count == nibbles@.len(),
            nibbles@.len() % 2 == 0,
            forall|k: int| 0 <= k < nibbles@.len() ==> nibbles@[k] < 16,
            out@ == pack_nibbles(nibbles@).take(j as int),
        decreases half - j,
    {
        assert(2 * j + 1 < nibbles@.len());
        let hi = nibbles[2 * j];
        let lo = nibbles[2 * j + 1];
        out.push(hi * 16 + lo);
        j += 1;
        assert(out@ =~= pack_nibbles(nibbles@).take(j as int));
    }
    assert(out@ =~= pack_nibbles(nibbles@));
    Some(out)
}

/// Once the query holds a character that is neither whitespace nor a hex
/// digit, every longer prefix is rejected as well.
proof fn lemma_query_nibbles_none_extends(s: Seq<char>, k: int)
    requires
        0 <= k <= s.len(),
        query_nibbles(s.take(k)) is None,
    ensures
        query_nibbles(s) is None,
    decreases s.len() - k,
{
    if k < s.len() {
        assert(s.take(k + 1).drop_last() == s.take(k));
        lemma_query_nibbles_none_extends(s, k + 1);
    } else {
        assert(s.take(k) == s);
    }
}

/// `needle` occurs in `hay` starting at `i`.
pub open spec fn occurs_at(hay: Seq<u8>, needle: Seq<u8>, i: int) -> bool {
    0 <= i && i + needle.len() <= hay.len() && hay.subrange(i, i + needle.len()) == needle
}

/// The first occurrence of `needle` in `hay` (`memchr::memmem::find`).
#[verifier::external_body]
pub(crate) fn memmem_find(hay: &[u8], needle: &[u8]) -> (r: Option<usize>)
    ensures
        match r {
            Some(i) => occurs_at(hay@, needle@, i as int) && forall|j: int| 0 <= j < i ==> !occurs_at(hay@, needle@, j),
            None => forall|j: int| !occurs_at(hay@, needle@, j),
        },
{
    memchr::memmem::find(hay, needle)
}

/// Forward search from `from`, wrapping to the start when nothing follows.
pub fn find_bytes(haystack: &[u8], needle: &[u8], from: u64) -> (r: Option<u64>)
    ensures
        needle@.len() == 0 || haystack@.len() == 0 ==> r is None,
        match r {
            None => needle@.len() == 0 || haystack@.len() == 0 || forall|i: int| !occurs_at(haystack@, needle@, i),
            Some(p) => occurs_at(haystack@, needle@, p as int) && (
                (p >= from && forall|j: int| from <= j < p ==> !occurs_at(haystack@, needle@, j))
                || (forall|j: int| j >= from ==> !occurs_at(haystack@, needle@, j))
                    && forall|j: int| 0 <= j < p ==> !occurs_at(haystack@, needle@, j)),
        },
{
    if needle.len() == 0 || haystack.len() == 0 {
        return None;
    }
    let f: usize = if from < haystack.len() as u64 { from as usize } else { haystack.len() };
    let tail = slice_from(haystack, f);
    match memmem_find(tail, needle) {
        Some(p) => {
            proof {
                assert(haystack@.subrange(f + p, f + p + needle@.len()) == tail@.subrange(p as int, p + needle@.len()));
                assert forall|j: int| from <= j < f + p implies !occurs_at(haystack@, needle@, j) by {
                    if occurs_at(haystack@, needle@, j) {
                        assert(tail@.subrange(j - f, j - f + needle@.len()) == haystack@.subrange(j, j + needle@.len()));
                        assert(occurs_at(tail@, needle@, j - f));
                    }
                }
            }
            return Some((f + p) as u64);
        },
        None => {
            proof {
                assert forall|j: int| j >= from implies !occurs_at(haystack@, needle@, j) by {
                    if occurs_at(haystack@, needle@, j) {
                        assert(tail@.subrange(j - f, j - f + needle@.len()) == haystack@.subrange(j, j + needle@.len()));
                        assert(occurs_at(tail@, needle@, j - f));
                    }
                }
            }
        },
    }
    match memmem_find(haystack, needle) {
        Some(p) => Some(p as u64),
        None => None,
    }
}

/// `s[from..]`.
pub(crate) fn slice_from(s: &[u8], from: usize) -> (r: &[u8])
    requires
        from <= s@.len(),
    ensures
        r@ == s@.skip(from as int),
{
    vstd::slice::slice_subrange(s, from, s.len())
}


/// The panel that takes input: the one last clicked.
#[derive(Debug, Clone, Copy, PartialEq, Eq)]
pub enum HexPane {
    Hex,
    Ascii,
}

/// Screen and edit state of a hex document.
pub struct HexState {
    /// `None` while viewing the mapped file, `Some` once loaded for editing.
    pub edit: Option<HexEditBuffer>,
    /// Caret: (byte offset, on the high nibble?). The character panel ignores the nibble.
    pub caret: (u64, bool),
    /// Selection [anchor, caret) as byte offsets, in either order.
    pub sel: Option<(u64, u64)>,
    pub pane: HexPane,
    /// Typing inserts when true and overwrites when false (toggled by Insert).
    pub insert_mode: bool,
    /// Whether the find box is read as hexadecimal (else as UTF-8 text).
    pub find_hex: bool,
    /// Last match (offset, length): highlighted, and where the next search starts.
    pub last_match: Option<(u64, usize)>,
    /// Waiting for confirmation before loading a file larger than the edit limit.
    pub confirm_load: bool,
}

impl HexState {
    /// View mode, caret on the high nibble of byte 0, hex pane, overwrite
    /// typing, hexadecimal find.
    pub fn new() -> (h: Self)
        ensures
            h.edit is None,
            h.caret == (0u64, true),
            h.sel is None,
            h.pane == HexPane::Hex,
            !h.insert_mode,
            h.find_hex,
            h.last_match is None,
            !h.confirm_load,
    {
        HexState {
            edit: None,
            caret: (0, true),
            sel: None,
            pane: HexPane::Hex,
            insert_mode: false,
            find_hex: true,
            last_match: None,
            confirm_load: false,
        }
    }
}

/// One recorded edit. `old`/`new` are byte strings because one typed
/// character in the text panel may be several UTF-8 bytes.
#[derive(Debug)]
enum HexOp {
    Overwrite { offset: u64, old: Vec<u8>, new: Vec<u8> },
    Insert { offset: u64, bytes: Vec<u8> },
    Delete { offset: u64, bytes: Vec<u8> },
}

spec fn op_offset(op: HexOp) -> u64 {
    match op {
        HexOp::Overwrite { offset, .. } => offset,
        HexOp::Insert { offset, .. } => offset,
        HexOp::Delete { offset, .. } => offset,
    }
}

/// `s` with `s[from..to]` replaced by `x`.
spec fn splice(s: Seq<u8>, from: int, to: int, x: Seq<u8>) -> Seq<u8> {
    s.take(from) + x + s.skip(to)
}

/// The edit can be taken back from contents `s`: the bytes it wrote are there.
spec fn undo_applicable(s: Seq<u8>, op: HexOp) -> bool {
    match op {
        HexOp::Overwrite { offset, old, new } => offset + new@.len() <= s.len()
            && s.subrange(offset as int, offset + new@.len()) == new@,
        HexOp::Insert { offset, bytes } => offset + bytes@.len() <= s.len()
            && s.subrange(offset as int, offset + bytes@.len()) == bytes@,
        HexOp::Delete { offset, bytes } => offset <= s.len(),
    }
}

spec fn undo_apply(s: Seq<u8>, op: HexOp) -> Seq<u8> {
    match op {
        HexOp::Overwrite { offset, old, new } => splice(s, offset as int, offset + new@.len(), old@),
        HexOp::Insert { offset, bytes } => splice(s, offset as int, offset + bytes@.len(), seq![]),
        HexOp::Delete { offset, bytes } => splice(s, offset as int, offset as int, bytes@),
    }
}

/// The edit can be made (again) on contents `s`: the bytes it replaces are there.
spec fn redo_applicable(s: Seq<u8>, op: HexOp) -> bool {
    match op {
        HexOp::Overwrite { offset, old, new } => offset + old@.len() <= s.len()
            && s.subrange(offset as int, offset + old@.len()) == old@,
        HexOp::Insert { offset, bytes } => offset <= s.len(),
        HexOp::Delete { offset, bytes } => offset + bytes@.len() <= s.len()
            && s.subrange(offset as int, offset + bytes@.len()) == bytes@,
    }
}

spec fn redo_apply(s: Seq<u8>, op: HexOp) -> Seq<u8> {
    match op {
        HexOp::Overwrite { offset, old, new } => splice(s, offset as int, offset + old@.len(), new@),
        HexOp::Insert { offset, bytes } => splice(s, offset as int, offset as int, bytes@),
        HexOp::Delete { offset, bytes } => splice(s, offset as int, offset + bytes@.len(), seq![]),
    }
}

/// Taking an edit back and making it again are inverse to each other.
proof fn lemma_undo_redo_inverse(s: Seq<u8>, op: HexOp)
    ensures
        undo_applicable(s, op) ==> redo_applicable(undo_apply(s, op), op)
            && redo_apply(undo_apply(s, op), op) =~= s,
        redo_applicable(s, op) ==> undo_applicable(redo_apply(s, op), op)
            && undo_apply(redo_apply(s, op), op) =~= s,
{
    match op {
        HexOp::Overwrite { offset, old, new } => {
            let o = offset as int;
            if undo_applicable(s, op) {
                let r = undo_apply(s, op);
                assert(r.subrange(o, o + old@.len()) =~= old@);
                assert(s =~= s.take(o) + s.subrange(o, o + new@.len()) + s.skip(o + new@.len()));
                assert(redo_apply(r, op) =~= s);
            }
            if redo_applicable(s, op) {
                let r = redo_apply(s, op);
                assert(r.subrange(o, o + new@.len()) =~= new@);
                assert(s =~= s.take(o) + s.subrange(o, o + old@.len()) + s.skip(o + old@.len()));
                assert(undo_apply(r, op) =~= s);
            }
        },
        HexOp::Insert { offset, bytes } => {
            let o = offset as int;
            if undo_applicable(s, op) {
                assert(s =~= s.take(o) + s.subrange(o, o + bytes@.len()) + s.skip(o + bytes@.len()));
                assert(redo_apply(undo_apply(s, op), op) =~= s);
            }
            if redo_applicable(s, op) {
                let r = redo_apply(s, op);
                assert(r.subrange(o, o + bytes@.len()) =~= bytes@);
                assert(undo_apply(r, op) =~= s);
            }
        },
        HexOp::Delete { offset, bytes } => {
            let o = offset as int;
            if undo_applicable(s, op) {
                let r = undo_apply(s, op);
                assert(r.subrange(o, o + bytes@.len()) =~= bytes@);
                assert(redo_apply(r, op) =~= s);
            }
            if redo_applicable(s, op) {
                assert(s =~= s.take(o) + s.subrange(o, o + bytes@.len()) + s.skip(o + bytes@.len()));
                assert(undo_apply(redo_apply(s, op), op) =~= s);
            }
        },
    }
}

/// Contents that successive undos produce from `s` with undo stack `ops`
/// (most recent first), provided each step is applicable.
spec fn undo_chain(s: Seq<u8>, ops: Seq<HexOp>) -> Option<Seq<Seq<u8>>>
    decreases ops.len(),
{
    if ops.len() == 0 {
        Some(seq![])
    } else if !undo_applicable(s, ops.last()) {
        None
    } else {
        match undo_chain(undo_apply(s, ops.last()), ops.drop_last()) {
            None => None,
            Some(rest) => Some(seq![undo_apply(s, ops.last())] + rest),
        }
    }
}

/// Contents that successive redos produce from `s` with redo stack `ops`.
spec fn redo_chain(s: Seq<u8>, ops: Seq<HexOp>) -> Option<Seq<Seq<u8>>>
    decreases ops.len(),
{
    if ops.len() == 0 {
        Some(seq![])
    } else if !redo_applicable(s, ops.last()) {
        None
    } else {
        match redo_chain(redo_apply(s, ops.last()), ops.drop_last()) {
            None => None,
            Some(rest) => Some(seq![redo_apply(s, ops.last())] + rest),
        }
    }
}

/// Whole-file edit buffer; `save::write_binary` writes it back.
pub struct HexEditBuffer {
    pub bytes: Vec<u8>,
    pub dirty: bool,
    undo: Vec<HexOp>,
    redo: Vec<HexOp>,
}

impl View for HexEditBuffer {
    type V = Seq<u8>;

    /// The buffer's contents.
    closed spec fn view(&self) -> Seq<u8> {
        self.bytes@
    }
}

impl HexEditBuffer {
    /// Whether there are unsaved edits.
    pub closed spec fn is_dirty(&self) -> bool {
        self.dirty
    }

    /// Every recorded edit can be taken back (and every undone one made again)
    /// from the current contents.
    pub closed spec fn wf(&self) -> bool {
        &&& undo_chain(self.bytes@, self.undo@) is Some
        &&& redo_chain(self.bytes@, self.redo@) is Some
    }

    /// The contents that repeated undo would show, most recent first.
    pub closed spec fn undo_states(&self) -> Seq<Seq<u8>> {
        undo_chain(self.bytes@, self.undo@).unwrap()
    }

    /// The contents that repeated redo would show, most recent first.
    pub closed spec fn redo_states(&self) -> Seq<Seq<u8>> {
        redo_chain(self.bytes@, self.redo@).unwrap()
    }

    /// Where the caret goes when the most recent edit is undone.
    pub closed spec fn next_undo_offset(&self) -> u64 {
        op_offset(self.undo@.last())
    }

    /// Where the caret goes when the most recently undone edit is redone.
    pub closed spec fn next_redo_offset(&self) -> u64 {
        op_offset(self.redo@.last())
    }

    /// Where the caret goes on each successive undo, most recent edit first.
    pub closed spec fn undo_offsets(&self) -> Seq<u64> {
        Seq::new(self.undo@.len(), |i: int| op_offset(self.undo@[self.undo@.len() - 1 - i]))
    }

    /// Where the caret goes on each successive redo, most recently undone
    /// edit first.
    pub closed spec fn redo_offsets(&self) -> Seq<u64> {
        Seq::new(self.redo@.len(), |i: int| op_offset(self.redo@[self.redo@.len() - 1 - i]))
    }

    pub fn new(bytes: Vec<u8>) -> (b: Self)
        ensures
            b.wf(),
            b@ == bytes@,
            !b.is_dirty(),
            b.undo_states() == Seq::<Seq<u8>>::empty(),
            b.redo_states() == Seq::<Seq<u8>>::empty(),
            b.undo_offsets() == Seq::<u64>::empty(),
            b.redo_offsets() == Seq::<u64>::empty(),
    {
        let b = HexEditBuffer { bytes, dirty: false, undo: Vec::new(), redo: Vec::new() };
        assert(b.undo_offsets() =~= Seq::<u64>::empty());
        assert(b.redo_offsets() =~= Seq::<u64>::empty());
        b
    }

    /// Records `op`, made on contents `prev` that now read `self.bytes`.
    fn push_op(&mut self, op: HexOp, Ghost(prev): Ghost<Seq<u8>>)
        requires
            redo_applicable(prev, op),
            old(self)@ == redo_apply(prev, op),
            undo_chain(prev, old(self).undo@) is Some,
        ensures
            final(self).wf(),
            final(self)@ == old(self)@,
            final(self).is_dirty(),
            final(self).undo_states() == seq![prev] + undo_chain(prev, old(self).undo@).unwrap(),
            final(self).redo_states() == Seq::<Seq<u8>>::empty(),
            final(self).next_undo_offset() == op_offset(op),
            final(self).undo_offsets() == seq![op_offset(op)] + old(self).undo_offsets(),
            final(self).redo_offsets() == Seq::<u64>::empty(),
    {
        proof { lemma_undo_redo_inverse(prev, op); }
        let ghost ops = self.undo@;
        self.undo.push(op);
        proof {
            assert(self.undo@.last() == op);
            assert(self.undo@.drop_last() == ops);
        }
        self.redo.clear();
        self.dirty = true;
        assert(self.undo_offsets() =~= seq![op_offset(op)] + old(self).undo_offsets());
        assert(self.redo_offsets() =~= Seq::<u64>::empty());
    }

    /// Overwrites from `offset` (clamped to the length) with `new`; whatever
    /// runs past the end is appended.
    pub fn overwrite(&mut self, offset: u64, new: &[u8])
        requires
            old(self).wf(),
        ensures
            final(self).wf(),
            new@.len() == 0 ==> *final(self) == *old(self),
            new@.len() > 0 ==> {
                let len = old(self)@.len();
                let o: int = if offset < len { offset as int } else { len as int };
                let e: int = if o + new@.len() < len { o + new@.len() } else { len as int };
                &&& final(self)@ == old(self)@.take(o) + new@ + old(self)@.skip(e)
                &&& final(self).is_dirty()
                &&& final(self).undo_states() == seq![old(self)@] + old(self).undo_states()
                &&& final(self).redo_states() == Seq::<Seq<u8>>::empty()
                &&& final(self).next_undo_offset() == o
                &&& final(self).undo_offsets() == seq![o as u64] + old(self).undo_offsets()
                &&& final(self).redo_offsets() == Seq::<u64>::empty()
            },
    {
        if new.len() == 0 {
            return;
        }
        let len = self.bytes.len();
        let o: usize = if offset < len as u64 { offset as usize } else { len };
        let e: usize = if new.len() < len - o { o + new.len() } else { len };
        let ghost prev = self.bytes@;
        let old_bytes = copy_range(&self.bytes, o, e);
        let new_bytes = spliced(&self.bytes, o, e, new);
        self.bytes = new_bytes;
        let op = HexOp::Overwrite { offset: o as u64, old: old_bytes, new: slice_to_vec(new) };
        proof {
            assert(prev.subrange(o as int, e as int) == old_bytes@);
            assert(self.bytes@ == redo_apply(prev, op));
        }
        self.push_op(op, Ghost(prev));
    }

    /// Inserts `bytes` at `offset` (clamped to the length).
    pub fn insert(&mut self, offset: u64, bytes: &[u8])
        requires
            old(self).wf(),
        ensures
            final(self).wf(),
            bytes@.len() == 0 ==> *final(self) == *old(self),
            bytes@.len() > 0 ==> {
                let len = old(self)@.len();
                let o: int = if offset < len { offset as int } else { len as int };
                &&& final(self)@ == old(self)@.take(o) + bytes@ + old(self)@.skip(o)
                &&& final(self).is_dirty()
                &&& final(self).undo_states() == seq![old(self)@] + old(self).undo_states()
                &&& final(self).redo_states() == Seq::<Seq<u8>>::empty()
                &&& final(self).next_undo_offset() == o
                &&& final(self).undo_offsets() == seq![o as u64] + old(self).undo_offsets()
                &&& final(self).redo_offsets() == Seq::<u64>::empty()
            },
    {
        if bytes.len() == 0 {
            return;
        }
        let len = self.bytes.len();
        let o: usize = if offset < len as u64 { offset as usize } else { len };
        let ghost prev = self.bytes@;
        let new_bytes = spliced(&self.bytes, o, o, bytes);
        self.bytes = new_bytes;
        let op = HexOp::Insert { offset: o as u64, bytes: slice_to_vec(bytes) };
        proof { assert(self.bytes@ == redo_apply(prev, op)); }
        self.push_op(op, Ghost(prev));
    }

    /// Deletes `[start, end)`, clamped to the length; an empty range does nothing.
    pub fn delete_range(&mut self, start: u64, end: u64)
        requires
            old(self).wf(),
        ensures
            final(self).wf(),
            ({
                let len = old(self)@.len();
                let s: int = if start < len { start as int } else { len as int };
                let e: int = if end < len { end as int } else { len as int };
                &&& s >= e ==> *final(self) == *old(self)
                &&& s < e ==> {
                    &&& final(self)@ == old(self)@.take(s) + old(self)@.skip(e)
                    &&& final(self).is_dirty()
                    &&& final(self).undo_states() == seq![old(self)@] + old(self).undo_states()
                    &&& final(self).redo_states() == Seq::<Seq<u8>>::empty()
                    &&& final(self).next_undo_offset() == s
                &&& final(self).undo_offsets() == seq![s as u64] + old(self).undo_offsets()
                &&& final(self).redo_offsets() == Seq::<u64>::empty()
                }
            }),
    {
        let len = self.bytes.len();
        let s: usize = if start < len as u64 { start as usize } else { len };
        let e: usize = if end < len as u64 { end as usize } else { len };
        if s >= e {
            return;
        }
        let ghost prev = self.bytes@;
        let removed = copy_range(&self.bytes, s, e);
        let empty: Vec<u8> = Vec::new();
        let new_bytes = spliced(&self.bytes, s, e, empty.as_slice());
        self.bytes = new_bytes;
        let op = HexOp::Delete { offset: s as u64, bytes: removed };
        proof {
            assert(self.bytes@ =~= redo_apply(prev, op));
        }
        self.push_op(op, Ghost(prev));
    }

    /// Takes back the most recent edit and returns the offset to put the caret
    /// at; `None` when there is nothing to undo.
    pub fn undo(&mut self) -> (r: Option<u64>)
        requires
            old(self).wf(),
        ensures
            final(self).wf(),
            old(self).undo_states().len() == 0 ==> r is None && *final(self) == *old(self),
            old(self).undo_states().len() > 0 ==> {
                &&& r == Some(old(self).next_undo_offset())
                &&& r == Some(old(self).undo_offsets()[0])
                &&& final(self).undo_offsets() == old(self).undo_offsets().drop_first()
                &&& final(self).redo_offsets() == seq![old(self).undo_offsets()[0]] + old(self).redo_offsets()
                &&& final(self)@ == old(self).undo_states()[0]
                &&& final(self).undo_states() == old(self).undo_states().drop_first()
                &&& final(self).redo_states() == seq![old(self)@] + old(self).redo_states()
                &&& final(self).is_dirty()
            },
    {
        proof { lemma_chain_len(self.bytes@, self.undo@, self.redo@); }
        if self.undo.len() == 0 {
            return None;
        }
        let ghost prev = self.bytes@;
        let ghost ops = self.undo@;
        let op = match self.undo.pop() {
            Some(op) => op,
            None => return None,
        };
        proof {
            assert(op == ops.last());
            assert(self.undo@ == ops.drop_last());
            assert(undo_applicable(prev, op));
        }
        let ghost rest = self.undo@;
        proof {
            lemma_undo_redo_inverse(prev, op);
        }
        let blen = self.bytes.len();
        let pos = match &op {
            HexOp::Overwrite { offset, old, new } => {
                assert(*offset + new@.len() <= blen);
                let o = *offset as usize;
                let nb = spliced(&self.bytes, o, o + new.len(), old.as_slice());
                self.bytes = nb;
                *offset
            },
            HexOp::Insert { offset, bytes } => {
                assert(*offset + bytes@.len() <= blen);
                let o = *offset as usize;
                let empty: Vec<u8> = Vec::new();
                let nb = spliced(&self.bytes, o, o + bytes.len(), empty.as_slice());
                self.bytes = nb;
                *offset
            },
            HexOp::Delete { offset, bytes } => {
                assert(*offset <= blen);
                let o = *offset as usize;
                let nb = spliced(&self.bytes, o, o, bytes.as_slice());
                self.bytes = nb;
                *offset
            },
        };
        proof { assert(self.bytes@ =~= undo_apply(prev, op)); }
        let ghost rops = self.redo@;
        self.redo.push(op);
        proof {
            assert(self.redo@.last() == op);
            assert(self.redo@.drop_last() == rops);
            assert(self.undo_offsets() =~= old(self).undo_offsets().drop_first());
            assert(self.redo_offsets() =~= seq![old(self).undo_offsets()[0]] + old(self).redo_offsets());
        }
        self.dirty = true;
        Some(pos)
    }

    /// Makes the most recently undone edit again and returns the offset to put
    /// the caret at; `None` when there is nothing to redo.
    pub fn redo(&mut self) -> (r: Option<u64>)
        requires
            old(self).wf(),
        ensures
            final(self).wf(),
            old(self).redo_states().len() == 0 ==> r is None && *final(self) == *old(self),
            old(self).redo_states().len() > 0 ==> {
                &&& r == Some(old(self).next_redo_offset())
                &&& r == Some(old(self).redo_offsets()[0])
                &&& final(self).redo_offsets() == old(self).redo_offsets().drop_first()
                &&& final(self).undo_offsets() == seq![old(self).redo_offsets()[0]] + old(self).undo_offsets()
                &&& final(self)@ == old(self).redo_states()[0]
                &&& final(self).redo_states() == old(self).redo_states().drop_first()
                &&& final(self).undo_states() == seq![old(self)@] + old(self).undo_states()
                &&& final(self).is_dirty()
            },
    {
        proof { lemma_chain_len(self.bytes@, self.undo@, self.redo@); }
        if self.redo.len() == 0 {
            return None;
        }
        let ghost prev = self.bytes@;
        let ghost ops = self.redo@;
        let op = match self.redo.pop() {
            Some(op) => op,
            None => return None,
        };
        proof {
            assert(op == ops.last());
            assert(self.redo@ == ops.drop_last());
            assert(redo_applicable(prev, op));
        }
        proof {
            lemma_undo_redo_inverse(prev, op);
        }
        let blen = self.bytes.len();
        let pos = match &op {
            HexOp::Overwrite { offset, old, new } => {
                assert(*offset + old@.len() <= blen);
                let o = *offset as usize;
                let nb = spliced(&self.bytes, o, o + old.len(), new.as_slice());
                self.bytes = nb;
                *offset
            },
            HexOp::Insert { offset, bytes } => {
                assert(*offset <= blen);
                let o = *offset as usize;
                let nb = spliced(&self.bytes, o, o, bytes.as_slice());
                self.bytes = nb;
                *offset
            },
            HexOp::Delete { offset, bytes } => {
                assert(*offset + bytes@.len() <= blen);
                let o = *offset as usize;
                let empty: Vec<u8> = Vec::new();
                let nb = spliced(&self.bytes, o, o + bytes.len(), empty.as_slice());
                self.bytes = nb;
                *offset
            },
        };
        proof { assert(self.bytes@ =~= redo_apply(prev, op)); }
        let ghost uops = self.undo@;
        self.undo.push(op);
        proof {
            assert(self.undo@.last() == op);
            assert(self.undo@.drop_last() == uops);
            assert(self.redo_offsets() =~= old(self).redo_offsets().drop_first());
            assert(self.undo_offsets() =~= seq![old(self).redo_offsets()[0]] + old(self).undo_offsets());
        }
        self.dirty = true;
        Some(pos)
    }
}

/// The number of snapshots equals the number of recorded edits.
proof fn lemma_chain_len(s: Seq<u8>, u: Seq<HexOp>, r: Seq<HexOp>)
    ensures
        undo_chain(s, u) matches Some(c) ==> c.len() == u.len(),
        redo_chain(s, r) matches Some(c) ==> c.len() == r.len(),
{
    lemma_undo_chain_len(s, u);
    lemma_redo_chain_len(s, r);
}

proof fn lemma_undo_chain_len(s: Seq<u8>, u: Seq<HexOp>)
    ensures
        undo_chain(s, u) matches Some(c) ==> c.len() == u.len(),
    decreases u.len(),
{
    if u.len() > 0 && undo_applicable(s, u.last()) {
        lemma_undo_chain_len(undo_apply(s, u.last()), u.drop_last());
    }
}

proof fn lemma_redo_chain_len(s: Seq<u8>, r: Seq<HexOp>)
    ensures
        redo_chain(s, r) matches Some(c) ==> c.len() == r.len(),
    decreases r.len(),
{
    if r.len() > 0 && redo_applicable(s, r.last()) {
        lemma_redo_chain_len(redo_apply(s, r.last()), r.drop_last());
    }
}

/// A copy of `s[from..to]`.
fn copy_range(s: &Vec<u8>, from: usize, to: usize) -> (r: Vec<u8>)
    requires
        from <= to <= s@.len(),
    ensures
        r@ == s@.subrange(from as int, to as int),
{
    let mut r: Vec<u8> = Vec::new();
    let mut i = from;
    while i < to
        invariant
            from <= i <= to <= s@.len(),
            r@ == s@.subrange(from as int, i as int),
        decreases to - i,
    {
        r.push(s[i]);
        i += 1;
        assert(r@ =~= s@.subrange(from as int, i as int));
    }
    r
}

/// A copy of `s` with `s[from..to]` replaced by `x`.
fn spliced(s: &Vec<u8>, from: usize, to: usize, x: &[u8]) -> (r: Vec<u8>)
    requires
        from <= to <= s@.len(),
    ensures
        r@ == s@.take(from as int) + x@ + s@.skip(to as int),
{
    let mut r = copy_range(s, 0, from);
    let mut i: usize = 0;
    while i < x.len()
        invariant
            0 <= i <= x@.len(),
            r@ == s@.take(from as int) + x@.take(i as int),
        decreases x.len() - i,
    {
        r.push(x[i]);
        i += 1;
        assert(r@ =~= s@.take(from as int) + x@.take(i as int));
    }
    let mut j = to;
    while j < s.len()
        invariant
            to <= j <= s@.len(),
            r@ == s@.take(from as int) + x@ + s@.subrange(to as int, j as int),
        decreases s.len() - j,
    {
        r.push(s[j]);
        j += 1;
        assert(r@ =~= s@.take(from as int) + x@ + s@.subrange(to as int, j as int));
    }
    assert(r@ =~= s@.take(from as int) + x@ + s@.skip(to as int));
    r
}

/// A copy of a slice.
fn slice_to_vec(s: &[u8]) -> (r: Vec<u8>)
    ensures
        r@ == s@,
{
    let mut r: Vec<u8> = Vec::new();
    let mut i: usize = 0;
    while i < s.len()
        invariant
            0 <= i <= s@.len(),
            r@ == s@.take(i as int),
        decreases s.len() - i,
    {
        r.push(s[i]);
        i += 1;
        assert(r@ =~= s@.take(i as int));
    }
    assert(r@ =~= s@);
    r
}

} // verus!
