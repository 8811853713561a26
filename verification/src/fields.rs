//! How the CSV fields of a line without quotes relate to splitting it at the
//! delimiter: the field ranges that `field_ranges` finds in the UTF-8 bytes of
//! such a line are exactly the encodings of its pieces between delimiters.
use vstd::prelude::*;
use vstd::utf8::{encode_utf8, encode_scalar};
use crate::edit::{split_by, join_with};
use crate::parse::{field_ranges, field_scan};

verus! {

/// `b` cut at every byte `sep`, read from the front.
pub open spec fn fsplit(b: Seq<u8>, sep: u8) -> Seq<Seq<u8>>
    decreases b.len(),
{
    if b.len() == 0 {
        seq![Seq::<u8>::empty()]
    } else {
        let r = fsplit(b.drop_first(), sep);
        if b[0] == sep {
            seq![Seq::<u8>::empty()] + r
        } else {
            r.update(0, seq![b[0]] + r[0])
        }
    }
}

proof fn lemma_fsplit_len(b: Seq<u8>, sep: u8)
    ensures
        fsplit(b, sep).len() >= 1,
    decreases b.len(),
{
    if b.len() > 0 {
        lemma_fsplit_len(b.drop_first(), sep);
    }
}

/// The field ranges of a scan that meets no quote: a new field after every
/// delimiter byte.
pub open spec fn plain_ranges(line: Seq<u8>, d: u8, i: int, start: int) -> Seq<(int, int)>
    decreases line.len() - i,
{
    if i >= line.len() {
        seq![(start, line.len() as int)]
    } else if line[i] == d {
        seq![(start, i)] + plain_ranges(line, d, i + 1, i + 1)
    } else {
        plain_ranges(line, d, i + 1, start)
    }
}

/// Without quote bytes ahead, the field scan just cuts at delimiters.
proof fn lemma_scan_plain(line: Seq<u8>, d: u8, i: int, start: int, acc: Seq<(int, int)>)
    requires
        0 <= i,
        forall|j: int| i <= j < line.len() ==> line[j] != 34u8,
    ensures
        field_scan(line, d, i, false, start, acc) == acc + plain_ranges(line, d, i, start),
    decreases line.len() - i,
{
    if i >= line.len() {
        assert(acc.push((start, line.len() as int)) =~= acc + seq![(start, line.len() as int)]);
    } else if line[i] == d {
        if i + 1 < line.len() {
            assert(line[i + 1] != 34u8);
        }
        lemma_scan_plain(line, d, i + 1, i + 1, acc.push((start, i)));
        assert(acc.push((start, i)) + plain_ranges(line, d, i + 1, i + 1) =~= acc + (seq![(start, i)] + plain_ranges(line, d, i + 1, i + 1)));
    } else {
        lemma_scan_plain(line, d, i + 1, start, acc);
    }
}

/// The bytes of each range of a quote-free scan from `i` (the current field
/// having begun at `start`) are the pieces of `line[i..]` cut at the
/// delimiter, the first one preceded by `line[start..i]`.
proof fn lemma_plain_pieces(line: Seq<u8>, d: u8, i: int, start: int)
    requires
        0 <= start <= i <= line.len(),
    ensures
        ({
            let r = plain_ranges(line, d, i, start);
            let f = fsplit(line.subrange(i, line.len() as int), d);
            &&& r.len() == f.len()
            &&& forall|k: int| 0 <= k < r.len() ==> 0 <= #[trigger] r[k].0 <= r[k].1 <= line.len()
            &&& forall|k: int| 0 <= k < r.len() ==> #[trigger] line.subrange(r[k].0, r[k].1)
                == if k == 0 { line.subrange(start, i) + f[0] } else { f[k] }
        }),
    decreases line.len() - i,
{
    let r = plain_ranges(line, d, i, start);
    let rest = line.subrange(i, line.len() as int);
    let f = fsplit(rest, d);
    if i >= line.len() {
        assert(rest =~= Seq::<u8>::empty());
        assert(line.subrange(start, i) + Seq::<u8>::empty() =~= line.subrange(start, i));
    } else {
        let rest1 = line.subrange(i + 1, line.len() as int);
        assert(rest.drop_first() =~= rest1);
        assert(rest[0] == line[i]);
        lemma_fsplit_len(rest1, d);
        if line[i] == d {
            lemma_plain_pieces(line, d, i + 1, i + 1);
            let r1 = plain_ranges(line, d, i + 1, i + 1);
            let f1 = fsplit(rest1, d);
            assert(f =~= seq![Seq::<u8>::empty()] + f1);
            assert forall|k: int| 0 <= k < r.len() implies #[trigger] line.subrange(r[k].0, r[k].1)
                == if k == 0 { line.subrange(start, i) + f[0] } else { f[k] } by {
                if k == 0 {
                    assert(line.subrange(start, i) + Seq::<u8>::empty() =~= line.subrange(start, i));
                } else {
                    assert(r[k] == r1[k - 1]);
                    assert(f[k] == f1[k - 1]);
                    if k - 1 == 0 {
                        assert(line.subrange(i + 1, i + 1) + f1[0] =~= f1[0]);
                    }
                }
            }
            assert forall|k: int| 0 <= k < r.len() implies 0 <= #[trigger] r[k].0 <= r[k].1 <= line.len() by {
                if k > 0 {
                    assert(r[k] == r1[k - 1]);
                }
            }
        } else {
            lemma_plain_pieces(line, d, i + 1, start);
            let f1 = fsplit(rest1, d);
            assert(f =~= f1.update(0, seq![line[i]] + f1[0]));
            assert forall|k: int| 0 <= k < r.len() implies #[trigger] line.subrange(r[k].0, r[k].1)
                == if k == 0 { line.subrange(start, i) + f[0] } else { f[k] } by {
                if k == 0 {
                    assert(line.subrange(start, i + 1) + f1[0] =~= line.subrange(start, i) + (seq![line[i]] + f1[0]));
                }
            }
        }
    }
}

/// `split_by` read from the front: a leading separator starts with an empty
/// piece; any other leading character joins the first piece.
proof fn lemma_split_by_cons(c: char, t: Seq<char>, sep: char)
    ensures
        split_by(seq![c] + t, sep) == if c == sep {
            seq![Seq::<char>::empty()] + split_by(t, sep)
        } else {
            split_by(t, sep).update(0, seq![c] + split_by(t, sep)[0])
        },
    decreases t.len(),
{
    crate::edit::lemma_split_by_len(t, sep);
    if t.len() == 0 {
        assert(seq![c] + t =~= seq![c]);
        assert(seq![c].drop_last() =~= Seq::<char>::empty());
        assert(seq![c].last() == c);
        assert(split_by(Seq::<char>::empty(), sep) =~= seq![Seq::<char>::empty()]);
        assert(Seq::<char>::empty().push(c) =~= seq![c]);
        if c == sep {
            assert(split_by(seq![c], sep) =~= seq![Seq::<char>::empty(), Seq::<char>::empty()]);
        } else {
            assert(split_by(seq![c], sep) =~= seq![seq![c]]);
            assert(seq![c] + Seq::<char>::empty() =~= seq![c]);
        }
    } else {
        let t1 = t.drop_last();
        let x = t.last();
        lemma_split_by_cons(c, t1, sep);
        crate::edit::lemma_split_by_len(t1, sep);
        let s = seq![c] + t;
        assert(s.drop_last() =~= seq![c] + t1);
        assert(s.last() == x);
        let q = split_by(t1, sep);
        let p = split_by(seq![c] + t1, sep);
        if c == sep {
            assert(p =~= seq![Seq::<char>::empty()] + q);
            if x == sep {
                assert(split_by(s, sep) =~= seq![Seq::<char>::empty()] + split_by(t, sep));
            } else {
                assert(split_by(s, sep) =~= seq![Seq::<char>::empty()] + split_by(t, sep));
            }
        } else {
            assert(p =~= q.update(0, seq![c] + q[0]));
            if x == sep {
                assert(split_by(s, sep) =~= split_by(t, sep).update(0, seq![c] + split_by(t, sep)[0]));
            } else {
                if q.len() == 1 {
                    assert(seq![c] + q[0].push(x) =~= (seq![c] + q[0]).push(x));
                }
                assert(split_by(s, sep) =~= split_by(t, sep).update(0, seq![c] + split_by(t, sep)[0]));
            }
        }
    }
}

/// Bytes free of `sep` in front join the first piece.
proof fn lemma_fsplit_prefix(e: Seq<u8>, x: Seq<u8>, sep: u8)
    requires
        forall|j: int| 0 <= j < e.len() ==> e[j] != sep,
    ensures
        fsplit(e + x, sep) == fsplit(x, sep).update(0, e + fsplit(x, sep)[0]),
    decreases e.len(),
{
    lemma_fsplit_len(x, sep);
    if e.len() == 0 {
        assert(e + x =~= x);
        assert(e + fsplit(x, sep)[0] =~= fsplit(x, sep)[0]);
        assert(fsplit(x, sep).update(0, fsplit(x, sep)[0]) =~= fsplit(x, sep));
    } else {
        let e1 = e.drop_first();
        lemma_fsplit_prefix(e1, x, sep);
        assert((e + x).drop_first() =~= e1 + x);
        assert((e + x)[0] == e[0]);
        lemma_fsplit_len(e1 + x, sep);
        assert(seq![e[0]] + (e1 + fsplit(x, sep)[0]) =~= e + fsplit(x, sep)[0]);
        assert(fsplit(e + x, sep) =~= fsplit(x, sep).update(0, e + fsplit(x, sep)[0]));
    }
}

/// Cutting the UTF-8 bytes of `s` at an ASCII delimiter gives the encodings of
/// the pieces of `s` between delimiters.
pub proof fn lemma_fsplit_utf8(s: Seq<char>, d: u8)
    requires
        d < 128,
    ensures
        fsplit(encode_utf8(s), d) == split_by(s, d as char).map_values(|p: Seq<char>| encode_utf8(p)),
    decreases s.len(),
{
    if s.len() == 0 {
        assert(encode_utf8(s) =~= Seq::<u8>::empty());
        assert(split_by(s, d as char).map_values(|p: Seq<char>| encode_utf8(p)) =~= seq![encode_utf8(Seq::<char>::empty())]);
        assert(encode_utf8(Seq::<char>::empty()) =~= Seq::<u8>::empty());
    } else {
        let c = s[0];
        let t = s.drop_first();
        assert(s =~= seq![c] + t);
        lemma_fsplit_utf8(t, d);
        lemma_split_by_cons(c, t, d as char);
        crate::edit::lemma_split_by_len(t, d as char);
        lemma_fsplit_len(encode_utf8(t), d);
        let v = c as u32;
        let e = encode_scalar(v);
        assert(encode_utf8(s) == e + encode_utf8(t));
        let r = split_by(t, d as char);
        let m = r.map_values(|p: Seq<char>| encode_utf8(p));
        if v <= 0x7F {
            assert((v & 0x7F) == v) by (bit_vector)
                requires
                    v <= 0x7F,
            ;
            assert((v as u8) as u32 == v) by (bit_vector)
                requires
                    v <= 0x7F,
            ;
            assert(e =~= seq![v as u8]);
        }
        if c == d as char {
            assert(v == d as u32);
            assert(e =~= seq![d]);
            assert((e + encode_utf8(t)).drop_first() =~= encode_utf8(t));
            assert(fsplit(encode_utf8(s), d) =~= seq![Seq::<u8>::empty()] + m);
            assert(encode_utf8(Seq::<char>::empty()) =~= Seq::<u8>::empty());
            assert(split_by(s, d as char).map_values(|p: Seq<char>| encode_utf8(p)) =~= seq![Seq::<u8>::empty()] + m);
        } else {
            assert forall|j: int| 0 <= j < e.len() implies e[j] != d by {
                if v > 0x7F {
                    assert(forall|a: u8| #[trigger] (0xC0u8 | a) >= 0x80u8) by (bit_vector);
                    assert(forall|a: u8| #[trigger] (0xE0u8 | a) >= 0x80u8) by (bit_vector);
                    assert(forall|a: u8| #[trigger] (0xF0u8 | a) >= 0x80u8) by (bit_vector);
                    assert(forall|a: u8| #[trigger] (0x80u8 | a) >= 0x80u8) by (bit_vector);
                } else {
                    assert(e[j] == v as u8);
                    if e[j] == d {
                        vstd::utf8::char_u32_cast(c, v);
                        assert(c == d as char);
                    }
                }
            }
            lemma_fsplit_prefix(e, encode_utf8(t), d);
            let first = seq![c] + r[0];
            assert(encode_utf8(first) == encode_scalar(first[0] as u32) + encode_utf8(first.drop_first()));
            assert(first.drop_first() =~= r[0]);
            assert(encode_utf8(first) == e + encode_utf8(r[0]));
            assert(split_by(s, d as char).map_values(|p: Seq<char>| encode_utf8(p)) =~= m.update(0, e + m[0]));
        }
    }
}

/// The fields of a line without quotes, read from its UTF-8 bytes, are the
/// encodings of its pieces between (ASCII) delimiters.
pub proof fn lemma_plain_fields(s: Seq<char>, d: u8)
    requires
        d < 128,
        !s.contains('"'),
    ensures
        field_ranges(encode_utf8(s), d).len() == split_by(s, d as char).len(),
        forall|k: int| 0 <= k < field_ranges(encode_utf8(s), d).len() ==>
            encode_utf8(s).subrange(#[trigger] field_ranges(encode_utf8(s), d)[k].0, field_ranges(encode_utf8(s), d)[k].1)
                == encode_utf8(split_by(s, d as char)[k]),
        forall|k: int| 0 <= k < field_ranges(encode_utf8(s), d).len() ==>
            0 <= #[trigger] field_ranges(encode_utf8(s), d)[k].0 <= field_ranges(encode_utf8(s), d)[k].1 <= encode_utf8(s).len(),
{
    let b = encode_utf8(s);
    crate::bytes::lemma_ascii_byte_in_utf8(s, 34u8);
    assert(34u8 as char == '"');
    assert forall|j: int| 0 <= j < b.len() implies b[j] != 34u8 by {
        if b[j] == 34u8 {
            assert(b.contains(34u8));
        }
    }
    lemma_scan_plain(b, d, 0, 0, seq![]);
    assert(seq![] + plain_ranges(b, d, 0, 0) =~= plain_ranges(b, d, 0, 0));
    assert(field_ranges(b, d) == plain_ranges(b, d, 0, 0));
    lemma_plain_pieces(b, d, 0, 0);
    assert(b.subrange(0, b.len() as int) =~= b);
    lemma_fsplit_utf8(s, d);
    let r = field_ranges(b, d);
    let f = fsplit(b, d);
    assert forall|k: int| 0 <= k < r.len() implies b.subrange(#[trigger] r[k].0, r[k].1) == encode_utf8(split_by(s, d as char)[k]) by {
        if k == 0 {
            assert(b.subrange(0, 0) + f[0] =~= f[0]);
        }
    }
}

/// The encoding of a concatenation is the concatenation of the encodings.
pub proof fn lemma_encode_concat(a: Seq<char>, b: Seq<char>)
    ensures
        encode_utf8(a + b) == encode_utf8(a) + encode_utf8(b),
    decreases a.len(),
{
    if a.len() == 0 {
        assert(a + b =~= b);
        assert(encode_utf8(a) =~= Seq::<u8>::empty());
        assert(Seq::<u8>::empty() + encode_utf8(b) =~= encode_utf8(b));
    } else {
        let a1 = a.drop_first();
        lemma_encode_concat(a1, b);
        assert((a + b)[0] == a[0]);
        assert((a + b).drop_first() =~= a1 + b);
        assert(encode_scalar(a[0] as u32) + (encode_utf8(a1) + encode_utf8(b)) =~= (encode_scalar(a[0] as u32) + encode_utf8(a1)) + encode_utf8(b));
    }
}

/// A run of characters of `s` equal to `n` puts the bytes of `n` into the
/// bytes of `s`.
pub proof fn lemma_chars_occur_in_bytes(s: Seq<char>, n: Seq<char>, i: int)
    requires
        0 <= i,
        i + n.len() <= s.len(),
        s.subrange(i, i + n.len()) == n,
    ensures
        crate::hex::occurs_at(encode_utf8(s), encode_utf8(n), encode_utf8(s.take(i)).len() as int),
{
    let x = s.take(i);
    let z = s.skip(i + n.len());
    assert(s =~= x + n + z);
    lemma_encode_concat(x + n, z);
    lemma_encode_concat(x, n);
    let b = encode_utf8(s);
    let ex = encode_utf8(x);
    let en = encode_utf8(n);
    assert(b == ex + en + encode_utf8(z));
    assert(b.subrange(ex.len() as int, (ex.len() + en.len()) as int) =~= en);
}

/// The shape of a quote-free scan: each field starts right after the
/// previous field's end, which is a delimiter byte; the last field ends at
/// the end of the line.
proof fn lemma_plain_ranges_shape(line: Seq<u8>, d: u8, i: int, start: int)
    requires
        0 <= start <= i <= line.len(),
    ensures
        ({
            let r = plain_ranges(line, d, i, start);
            &&& r.len() >= 1
            &&& r[0].0 == start
            &&& r[r.len() - 1].1 == line.len()
            &&& forall|k: int| 0 < k < r.len() ==> #[trigger] r[k].0 == r[k - 1].1 + 1
                && r[k - 1].1 < line.len() && line[r[k - 1].1] == d
        }),
    decreases line.len() - i,
{
    if i < line.len() {
        if line[i] == d {
            lemma_plain_ranges_shape(line, d, i + 1, i + 1);
            let r1 = plain_ranges(line, d, i + 1, i + 1);
            let r = plain_ranges(line, d, i, start);
            assert(r == seq![(start, i)] + r1);
            assert forall|k: int| 0 < k < r.len() implies #[trigger] r[k].0 == r[k - 1].1 + 1
                && r[k - 1].1 < line.len() && line[r[k - 1].1] == d by {
                if k > 1 {
                    assert(r[k] == r1[k - 1]);
                    assert(r[k - 1] == r1[k - 2]);
                }
            }
        } else {
            lemma_plain_ranges_shape(line, d, i + 1, start);
        }
    }
}

/// Where piece `k` of `fs` starts in `join_with(fs, sep)`.
pub open spec fn cstart(fs: Seq<Seq<char>>, k: int, sep: char) -> int {
    if k <= 0 { 0 } else { join_with(fs.take(k), sep).len() + 1int }
}

/// Each piece sits at its start in the joined text, followed by the
/// separator (all but the last, which ends the text).
pub proof fn lemma_join_positions(fs: Seq<Seq<char>>, sep: char)
    requires
        fs.len() >= 1,
    ensures
        forall|k: int| 0 <= k < fs.len() ==> #[trigger] join_with(fs, sep).subrange(cstart(fs, k, sep), cstart(fs, k, sep) + fs[k].len()) == fs[k],
        forall|k: int| 0 <= k < fs.len() - 1 ==> #[trigger] join_with(fs, sep)[cstart(fs, k, sep) + fs[k].len()] == sep,
        forall|k: int| 0 <= k < fs.len() - 1 ==> #[trigger] cstart(fs, k + 1, sep) == cstart(fs, k, sep) + fs[k].len() + 1,
        cstart(fs, fs.len() - 1, sep) + fs[fs.len() - 1].len() == join_with(fs, sep).len(),
        forall|k: int| 0 <= k < fs.len() ==> 0 <= #[trigger] cstart(fs, k, sep) && cstart(fs, k, sep) + fs[k].len() <= join_with(fs, sep).len(),
    decreases fs.len(),
{
    let s = join_with(fs, sep);
    if fs.len() == 1 {
        assert(s == fs[0]);
        assert(s.subrange(0, fs[0].len() as int) =~= fs[0]);
    } else {
        let f1 = fs.drop_last();
        lemma_join_positions(f1, sep);
        let s1 = join_with(f1, sep);
        let x = fs.last();
        assert(s == s1 + seq![sep] + x);
        assert forall|k: int| 0 <= k < fs.len() - 1 implies #[trigger] cstart(fs, k, sep) == cstart(f1, k, sep) by {
            assert(fs.take(k) =~= f1.take(k));
        }
        assert(fs.take(fs.len() - 1) =~= f1);
        assert(cstart(fs, fs.len() - 1, sep) == s1.len() + 1);
        assert forall|k: int| 0 <= k < fs.len() implies #[trigger] s.subrange(cstart(fs, k, sep), cstart(fs, k, sep) + fs[k].len()) == fs[k] by {
            if k < fs.len() - 1 {
                assert(fs[k] == f1[k]);
                assert(s1.subrange(cstart(f1, k, sep), cstart(f1, k, sep) + f1[k].len()) == f1[k]);
                assert(0 <= cstart(f1, k, sep) && cstart(f1, k, sep) + f1[k].len() <= s1.len());
                assert(s.subrange(cstart(fs, k, sep), cstart(fs, k, sep) + fs[k].len()) =~= s1.subrange(cstart(f1, k, sep), cstart(f1, k, sep) + f1[k].len()));
            } else {
                assert(s.subrange(s1.len() + 1int, s1.len() + 1int + x.len()) =~= x);
            }
        }
        assert forall|k: int| 0 <= k < fs.len() - 1 implies #[trigger] s[cstart(fs, k, sep) + fs[k].len()] == sep by {
            assert(fs[k] == f1[k]);
            assert(0 <= cstart(f1, k, sep) && cstart(f1, k, sep) + f1[k].len() <= s1.len());
            if k < f1.len() - 1 {
                assert(s1[cstart(f1, k, sep) + f1[k].len()] == sep);
            } else {
                assert(cstart(fs, k, sep) + fs[k].len() == s1.len());
            }
        }
        assert forall|k: int| 0 <= k < fs.len() implies 0 <= #[trigger] cstart(fs, k, sep) && cstart(fs, k, sep) + fs[k].len() <= s.len() by {
            if k < fs.len() - 1 {
                assert(fs[k] == f1[k]);
                assert(0 <= cstart(f1, k, sep) && cstart(f1, k, sep) + f1[k].len() <= s1.len());
            }
        }
        assert forall|k: int| 0 <= k < fs.len() - 1 implies #[trigger] cstart(fs, k + 1, sep) == cstart(fs, k, sep) + fs[k].len() + 1 by {
            assert(fs[k] == f1[k]);
            if k + 1 < fs.len() - 1 {
                assert(cstart(f1, k + 1, sep) == cstart(f1, k, sep) + f1[k].len() + 1);
            }
        }
    }
}

/// Joining the pieces of `s` with the separator they were cut at gives `s`.
pub proof fn lemma_join_split_by(s: Seq<char>, sep: char)
    ensures
        join_with(split_by(s, sep), sep) == s,
    decreases s.len(),
{
    if s.len() > 0 {
        let t = s.drop_last();
        lemma_join_split_by(t, sep);
        crate::edit::lemma_split_by_len(t, sep);
        let p = split_by(t, sep);
        let c = s.last();
        if c == sep {
            let q = p.push(Seq::<char>::empty());
            assert(q.drop_last() =~= p);
            assert(join_with(q, sep) =~= t + seq![sep] + Seq::<char>::empty());
            assert(t + seq![sep] + Seq::<char>::empty() =~= s);
        } else {
            let q = p.update(p.len() - 1, p.last().push(c));
            if p.len() == 1 {
                assert(join_with(q, sep) == q[0]);
                assert(q[0] =~= s);
            } else {
                assert(q.drop_last() =~= p.drop_last());
                let x = join_with(p.drop_last(), sep);
                assert(join_with(q, sep) =~= x + seq![sep] + p.last().push(c));
                assert(join_with(p, sep) == x + seq![sep] + p.last());
                assert(x + seq![sep] + p.last().push(c) =~= (x + seq![sep] + p.last()).push(c));
                assert(t.push(c) =~= s);
            }
        }
    } else {
        assert(split_by(s, sep) =~= seq![Seq::<char>::empty()]);
    }
}

/// In the bytes of a line without quotes, each field's range starts where
/// the encoding of the text before that field ends.
pub proof fn lemma_plain_starts(s: Seq<char>, d: u8)
    requires
        d < 128,
        !s.contains('"'),
    ensures
        forall|k: int| 0 <= k < field_ranges(encode_utf8(s), d).len() ==>
            encode_utf8(s).take(#[trigger] field_ranges(encode_utf8(s), d)[k].0)
                == encode_utf8(s.take(cstart(split_by(s, d as char), k, d as char))),
{
    let b = encode_utf8(s);
    let dc = d as char;
    let fs = split_by(s, dc);
    let r = field_ranges(b, d);
    lemma_plain_fields(s, d);
    crate::bytes::lemma_ascii_byte_in_utf8(s, 34u8);
    assert(34u8 as char == '"');
    assert forall|j: int| 0 <= j < b.len() implies b[j] != 34u8 by {
        if b[j] == 34u8 {
            assert(b.contains(34u8));
        }
    }
    lemma_scan_plain(b, d, 0, 0, seq![]);
    assert(seq![] + plain_ranges(b, d, 0, 0) =~= plain_ranges(b, d, 0, 0));
    lemma_plain_ranges_shape(b, d, 0, 0);
    crate::edit::lemma_split_by_len(s, dc);
    lemma_join_positions(fs, dc);
    lemma_join_split_by(s, dc);
    assert(join_with(fs, dc) == s);
    assert(r == plain_ranges(b, d, 0, 0));
    assert(encode_utf8(seq![dc]) =~= seq![d]) by {
        let v = dc as u32;
        assert(v == d as u32);
        assert((v & 0x7F) == v) by (bit_vector)
            requires
                v < 128,
        ;
        assert((v as u8) == d) by (bit_vector)
            requires
                v == d as u32,
                d < 128,
        ;
        assert(seq![dc].drop_first() =~= Seq::<char>::empty());
        assert(encode_utf8(Seq::<char>::empty()) =~= Seq::<u8>::empty());
    }
    assert forall|k: int| 0 <= k < r.len() implies b.take(#[trigger] r[k].0) == encode_utf8(s.take(cstart(fs, k, dc))) by {
        lemma_plain_starts_upto(s, d, b, r, fs, k);
    }
}

/// `lemma_plain_starts` for one field, by induction on the field's index,
/// from the facts the caller has gathered.
proof fn lemma_plain_starts_upto(s: Seq<char>, d: u8, b: Seq<u8>, r: Seq<(int, int)>, fs: Seq<Seq<char>>, k: int)
    requires
        0 <= k < r.len(),
        r.len() == fs.len(),
        r[0].0 == 0,
        forall|j: int| 0 < j < r.len() ==> #[trigger] r[j].0 == r[j - 1].1 + 1 && r[j - 1].1 < b.len() && b[r[j - 1].1] == d,
        forall|j: int| 0 <= j < r.len() ==> 0 <= #[trigger] r[j].0 <= r[j].1 <= b.len(),
        forall|j: int| 0 <= j < r.len() ==> b.subrange(#[trigger] r[j].0, r[j].1) == encode_utf8(fs[j]),
        forall|j: int| 0 <= j < fs.len() ==> #[trigger] s.subrange(cstart(fs, j, d as char), cstart(fs, j, d as char) + fs[j].len()) == fs[j],
        forall|j: int| 0 <= j < fs.len() - 1 ==> #[trigger] s[cstart(fs, j, d as char) + fs[j].len()] == d as char,
        forall|j: int| 0 <= j < fs.len() - 1 ==> #[trigger] cstart(fs, j + 1, d as char) == cstart(fs, j, d as char) + fs[j].len() + 1,
        forall|j: int| 0 <= j < fs.len() ==> 0 <= #[trigger] cstart(fs, j, d as char) && cstart(fs, j, d as char) + fs[j].len() <= s.len(),
        encode_utf8(seq![d as char]) == seq![d],
    ensures
        b.take(r[k].0) == encode_utf8(s.take(cstart(fs, k, d as char))),
    decreases k,
{
    let dc = d as char;
    if k == 0 {
        assert(b.take(0) =~= Seq::<u8>::empty());
        assert(s.take(0) =~= Seq::<char>::empty());
        assert(encode_utf8(Seq::<char>::empty()) =~= Seq::<u8>::empty());
    } else {
        lemma_plain_starts_upto(s, d, b, r, fs, k - 1);
        let a = r[k - 1].0;
        let e = r[k - 1].1;
        let c0 = cstart(fs, k - 1, dc);
        let p = fs[k - 1];
        assert(r[k].0 == e + 1);
        assert(b[e] == d);
        assert(0 <= a <= e < b.len());
        assert(b.take(e + 1) =~= b.take(a) + b.subrange(a, e) + seq![d]);
        assert(b.subrange(a, e) == encode_utf8(p));
        assert(k - 1 < fs.len() - 1);
        assert(cstart(fs, (k - 1) + 1, dc) == c0 + p.len() + 1);
        assert(cstart(fs, k, dc) == c0 + p.len() + 1);
        assert(s.subrange(c0, c0 + p.len()) == p);
        assert(s[c0 + p.len()] == dc);
        assert(s.take(c0 + p.len() + 1) =~= s.take(c0) + p + seq![dc]);
        lemma_encode_concat(s.take(c0) + p, seq![dc]);
        lemma_encode_concat(s.take(c0), p);
    }
}

} // verus!
