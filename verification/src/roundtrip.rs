//! Saving as UTF-8 and opening the file again gives the same lines back.
use vstd::prelude::*;
use vstd::utf8::{encode_utf8, encode_scalar};
use crate::edit::{Newline, next_nl, raw_lines, file_lines, strip_cr, has_crlf, decoded_lines};
use crate::parse::{Encoding, line_text, has_utf8_bom};
use crate::save::{SaveOptions, spec_document_bytes, spec_bom, newline_text};

verus! {

/// UTF-8 text starts with the bytes of the byte-order mark only when its
/// first character is U+FEFF.
pub(crate) proof fn lemma_bom_bytes_start(l: Seq<char>)
    ensures
        has_utf8_bom(encode_utf8(l)) ==> l.len() > 0 && l[0] == '\u{FEFF}',
{
    if l.len() > 0 && has_utf8_bom(encode_utf8(l)) {
        let c = l[0];
        let v = c as u32;
        vstd::utf8::char_is_scalar(c);
        let e = encode_scalar(v);
        let b = encode_utf8(l);
        assert(b == e + encode_utf8(l.drop_first()));
        if v <= 0x7F {
            assert(b[0] == e[0]);
            assert((v & 0x7F) as u8 != 0xEFu8) by (bit_vector);
        } else if v <= 0x7FF {
            assert(b[0] == e[0]);
            assert((0xC0u8 | ((v >> 6) & 0x1F) as u8) != 0xEFu8) by (bit_vector);
        } else if v <= 0xFFFF {
            assert(b[0] == e[0] && b[1] == e[1] && b[2] == e[2]);
            assert(v == 0xFEFF) by (bit_vector)
                requires
                    v <= 0xFFFF,
                    (0xE0u8 | ((v >> 12) & 0x0F) as u8) == 0xEFu8,
                    (0x80u8 | ((v >> 6) & 0x3F) as u8) == 0xBBu8,
                    (0x80u8 | (v & 0x3F) as u8) == 0xBFu8;
            vstd::utf8::char_u32_cast(c, v);
            vstd::utf8::char_u32_cast('\u{FEFF}', 0xFEFFu32);
        } else {
            assert(b[0] == e[0]);
            assert((0xF0u8 | ((v >> 18) & 0x7) as u8) != 0xEFu8) by (bit_vector);
        }
    }
}

/// UTF-8 text starts with the bytes of the byte-order mark exactly when its
/// first character is U+FEFF.
pub(crate) proof fn lemma_bom_bytes_iff(l: Seq<char>)
    ensures
        has_utf8_bom(encode_utf8(l)) <==> (l.len() > 0 && l[0] == '\u{FEFF}'),
{
    lemma_bom_bytes_start(l);
    if l.len() > 0 && l[0] == '\u{FEFF}' {
        let v = l[0] as u32;
        assert(v == 0xFEFFu32);
        let e = encode_scalar(v);
        assert(encode_utf8(l) == e + encode_utf8(l.drop_first()));
        assert((0xE0u8 | ((v >> 12) & 0x0F) as u8) == 0xEFu8) by (bit_vector)
            requires
                v == 0xFEFFu32;
        assert((0x80u8 | ((v >> 6) & 0x3F) as u8) == 0xBBu8) by (bit_vector)
            requires
                v == 0xFEFFu32;
        assert((0x80u8 | (v & 0x3F) as u8) == 0xBFu8) by (bit_vector)
            requires
                v == 0xFEFFu32;
        assert(e.len() == 3);
        assert(encode_utf8(l)[0] == e[0] && encode_utf8(l)[1] == e[1] && encode_utf8(l)[2] == e[2]);
    }
}

/// UTF-8 text ends with a carriage-return byte only when its last character
/// is a carriage return.
proof fn lemma_last_byte_cr(l: Seq<char>)
    ensures
        encode_utf8(l).len() > 0 && encode_utf8(l).last() == 13u8 ==> l.len() > 0 && l.last() == '\r',
{
    if l.len() == 0 {
        assert(encode_utf8(l) =~= Seq::<u8>::empty());
    } else {
        let c = l.last();
        let v = c as u32;
        vstd::utf8::char_is_scalar(c);
        crate::fields::lemma_encode_concat(l.drop_last(), seq![c]);
        assert(l.drop_last() + seq![c] =~= l);
        assert(seq![c].drop_first() =~= Seq::<char>::empty());
        assert(encode_utf8(Seq::<char>::empty()) =~= Seq::<u8>::empty());
        assert(encode_utf8(seq![c]) == encode_scalar(v) + encode_utf8(Seq::<char>::empty()));
        assert(encode_utf8(seq![c]) =~= encode_scalar(v));
        let e = encode_scalar(v);
        assert(encode_utf8(l).last() == e.last());
        if v <= 0x7F {
            assert(((v & 0x7F) as u8 == 13u8) ==> v == 13) by (bit_vector)
                requires
                    v <= 0x7F;
            vstd::utf8::char_u32_cast(c, v);
            vstd::utf8::char_u32_cast('\r', 13u32);
        } else {
            crate::bytes::lemma_wide_scalar_bytes(v);
            assert(e.last() == e[e.len() - 1]);
        }
    }
}

/// The first line feed from `i` on is at `j` when the bytes between are
/// not line feeds.
proof fn lemma_next_nl_at(b: Seq<u8>, i: int, j: int)
    requires
        0 <= i <= j < b.len(),
        b[j] == 10u8,
        forall|k: int| i <= k < j ==> b[k] != 10u8,
    ensures
        next_nl(b, i) == Some(j),
    decreases j - i,
{
    if i < j {
        lemma_next_nl_at(b, i + 1, j);
    }
}

/// The bytes of a line ending in UTF-8.
proof fn lemma_newline_bytes(n: Newline)
    ensures
        encode_utf8(newline_text(n)) == (match n {
            Newline::Lf => seq![10u8],
            Newline::CrLf => seq![13u8, 10u8],
        }),
{
    assert((10u32 & 0x7F) as u8 == 10u8) by (bit_vector);
    assert((13u32 & 0x7F) as u8 == 13u8) by (bit_vector);
    assert('\n' as u32 == 10u32);
    assert('\r' as u32 == 13u32);
    let nl = seq!['\n'];
    assert(nl.drop_first() =~= Seq::<char>::empty());
    assert(encode_utf8(Seq::<char>::empty()) =~= Seq::<u8>::empty());
    assert(encode_scalar(10u32) =~= seq![10u8]);
    assert(encode_scalar(13u32) =~= seq![13u8]);
    assert(encode_utf8(nl) == encode_scalar(10u32) + encode_utf8(Seq::<char>::empty()));
    assert(encode_utf8(nl) =~= seq![10u8]);
    let crlf = seq!['\r', '\n'];
    assert(crlf.drop_first() =~= nl);
    assert(encode_utf8(crlf) == encode_scalar(13u32) + encode_utf8(nl));
    assert(encode_utf8(crlf) =~= seq![13u8, 10u8]);
}

/// What stands before line `k` of a saved file besides earlier lines: the
/// byte-order mark before the first line, when one was written.
spec fn head(opts: SaveOptions, k: int) -> Seq<u8> {
    if k == 0 && opts.bom { spec_bom(opts.enc) } else { seq![] }
}

/// The raw bytes of line `k` of a UTF-8 file saved from `ls`, its line feed
/// excluded.
spec fn saved_piece(ls: Seq<Seq<char>>, opts: SaveOptions, k: int) -> Seq<u8> {
    head(opts, k) + encode_utf8(ls[k]) + (if opts.newline == Newline::CrLf { seq![13u8] } else { seq![] })
}

/// Where line `k` starts in the saved file.
spec fn line_start(ls: Seq<Seq<char>>, opts: SaveOptions, k: int) -> int {
    spec_document_bytes(ls.take(k), opts).len() - head(opts, k).len()
}

/// The bytes saved for the first `k` lines begin the bytes saved for the
/// first `m`.
proof fn lemma_doc_prefix(ls: Seq<Seq<char>>, opts: SaveOptions, k: int, m: int)
    requires
        0 <= k <= m <= ls.len(),
    ensures
        spec_document_bytes(ls.take(k), opts).len() <= spec_document_bytes(ls.take(m), opts).len(),
        spec_document_bytes(ls.take(m), opts).take(spec_document_bytes(ls.take(k), opts).len() as int)
            == spec_document_bytes(ls.take(k), opts),
    decreases m - k,
{
    let dk = spec_document_bytes(ls.take(k), opts);
    if k == m {
        assert(dk.take(dk.len() as int) =~= dk);
    } else {
        lemma_doc_prefix(ls, opts, k, m - 1);
        assert(ls.take(m).drop_last() =~= ls.take(m - 1));
        let d1 = spec_document_bytes(ls.take(m - 1), opts);
        let dm = spec_document_bytes(ls.take(m), opts);
        assert(dm.take(d1.len() as int) =~= d1);
        assert(dm.take(dk.len() as int) =~= d1.take(dk.len() as int));
    }
}

/// Each saved line, with its line feed, lies between the starts of its line
/// and the next.
proof fn lemma_doc_line(ls: Seq<Seq<char>>, opts: SaveOptions, k: int)
    requires
        opts.enc == Encoding::Utf8,
        0 <= k < ls.len(),
    ensures
        0 <= line_start(ls, opts, k),
        line_start(ls, opts, k) + saved_piece(ls, opts, k).len() + 1 == spec_document_bytes(ls.take(k + 1), opts).len(),
        spec_document_bytes(ls, opts).subrange(line_start(ls, opts, k), spec_document_bytes(ls.take(k + 1), opts).len() as int)
            == saved_piece(ls, opts, k) + seq![10u8],
{
    let n = ls.len() as int;
    lemma_doc_prefix(ls, opts, k + 1, n);
    lemma_newline_bytes(opts.newline);
    assert(ls.take(n) =~= ls);
    assert(ls.take(k + 1).drop_last() =~= ls.take(k));
    assert(ls.take(k + 1).last() == ls[k]);
    let dk = spec_document_bytes(ls.take(k), opts);
    let d1 = spec_document_bytes(ls.take(k + 1), opts);
    let b = spec_document_bytes(ls, opts);
    let nlb = encode_utf8(newline_text(opts.newline));
    assert(d1 == dk + encode_utf8(ls[k]) + nlb);
    let cr: Seq<u8> = if opts.newline == Newline::CrLf { seq![13u8] } else { seq![] };
    assert(nlb =~= cr + seq![10u8]);
    if k == 0 {
        assert(ls.take(0) =~= Seq::<Seq<char>>::empty());
        assert(dk == head(opts, 0));
    }
    assert(dk =~= dk.take(line_start(ls, opts, k)) + head(opts, k));
    assert(b.take(d1.len() as int) == d1);
    assert(b.subrange(line_start(ls, opts, k), d1.len() as int) =~= d1.subrange(line_start(ls, opts, k), d1.len() as int));
    assert(d1.subrange(line_start(ls, opts, k), d1.len() as int) =~= saved_piece(ls, opts, k) + seq![10u8]);
}

/// A saved line holds no line feed byte.
proof fn lemma_piece_no_lf(ls: Seq<Seq<char>>, opts: SaveOptions, k: int)
    requires
        opts.enc == Encoding::Utf8,
        0 <= k < ls.len(),
        !ls[k].contains('\n'),
    ensures
        forall|j: int| 0 <= j < saved_piece(ls, opts, k).len() ==> #[trigger] saved_piece(ls, opts, k)[j] != 10u8,
{
    let p = saved_piece(ls, opts, k);
    let l = ls[k];
    crate::bytes::lemma_ascii_byte_in_utf8(l, 10u8);
    assert(10u8 as char == '\n');
    let hd = head(opts, k);
    let el = encode_utf8(l);
    assert forall|j: int| 0 <= j < p.len() implies #[trigger] p[j] != 10u8 by {
        if j < hd.len() {
            assert(p[j] == hd[j]);
        } else if j < hd.len() + el.len() {
            assert(p[j] == el[j - hd.len()]);
            if el[j - hd.len()] == 10u8 {
                assert(el.contains(10u8));
            }
        } else {
            assert(p[j] == 13u8);
        }
    }
}

/// Splitting a saved file at its line feeds from line `k` on gives the
/// saved lines from `k` on, then an empty piece after the last line feed.
proof fn lemma_saved_raw_lines(ls: Seq<Seq<char>>, opts: SaveOptions, k: int)
    requires
        opts.enc == Encoding::Utf8,
        ls.len() >= 1,
        0 <= k <= ls.len(),
        forall|i: int| 0 <= i < ls.len() ==> !(#[trigger] ls[i]).contains('\n'),
    ensures
        raw_lines(spec_document_bytes(ls, opts), line_start(ls, opts, k))
            == Seq::new((ls.len() - k) as nat, |j: int| saved_piece(ls, opts, k + j)) + seq![Seq::<u8>::empty()],
    decreases ls.len() - k,
{
    let n = ls.len() as int;
    let b = spec_document_bytes(ls, opts);
    assert(ls.take(n) =~= ls);
    let want = Seq::new((n - k) as nat, |j: int| saved_piece(ls, opts, k + j));
    if k == n {
        assert(line_start(ls, opts, k) == b.len());
        assert(b.subrange(b.len() as int, b.len() as int) =~= Seq::<u8>::empty());
        assert(want =~= Seq::<Seq<u8>>::empty());
        assert(Seq::<Seq<u8>>::empty() + seq![Seq::<u8>::empty()] =~= seq![Seq::<u8>::empty()]);
    } else {
        lemma_doc_line(ls, opts, k);
        lemma_doc_prefix(ls, opts, k + 1, n);
        let s0 = line_start(ls, opts, k);
        let p = saved_piece(ls, opts, k);
        let e = s0 + p.len();
        let d1 = spec_document_bytes(ls.take(k + 1), opts);
        assert(b.subrange(s0, e + 1) == p + seq![10u8]);
        lemma_piece_no_lf(ls, opts, k);
        assert forall|i: int| s0 <= i < e implies b[i] != 10u8 by {
            assert(b[i] == b.subrange(s0, e + 1)[i - s0]);
            assert(b.subrange(s0, e + 1)[i - s0] == p[i - s0]);
        }
        assert(b[e] == b.subrange(s0, e + 1)[p.len() as int]);
        lemma_next_nl_at(b, s0, e);
        assert(b.subrange(s0, e) =~= p);
        lemma_saved_raw_lines(ls, opts, k + 1);
        assert(line_start(ls, opts, k + 1) == e + 1);
        assert(raw_lines(b, s0) == seq![p] + raw_lines(b, e + 1));
        let rest = Seq::new((n - k - 1) as nat, |j: int| saved_piece(ls, opts, k + 1 + j));
        assert(want =~= seq![p] + rest);
        assert(seq![p] + (rest + seq![Seq::<u8>::empty()]) =~= want + seq![Seq::<u8>::empty()]);
    }
}

/// Saving lines as UTF-8, with or without a byte-order mark and with either
/// line ending, then opening the bytes again (`load_edit_buffer` reads them
/// as `file_lines`, each line decoded by `line_text`) gives the same lines
/// and the same line ending. The lines are those an edit buffer holds: at
/// least one, none with a line feed; with LF endings none may end with a
/// carriage return (it would read as part of the ending), and no line may
/// start with U+FEFF (it would read as a byte-order mark), except the first
/// line after a written byte-order mark.
pub proof fn lemma_save_load_utf8(ls: Seq<Seq<char>>, opts: SaveOptions)
    requires
        opts.enc == Encoding::Utf8,
        ls.len() >= 1,
        forall|i: int| 0 <= i < ls.len() ==> !(#[trigger] ls[i]).contains('\n'),
        opts.newline == Newline::Lf ==> forall|i: int| 0 <= i < ls.len() ==> !((#[trigger] ls[i]).len() > 0 && ls[i].last() == '\r'),
        forall|i: int| 0 <= i < ls.len() && !(i == 0 && opts.bom) ==> !((#[trigger] ls[i]).len() > 0 && ls[i][0] == '\u{FEFF}'),
    ensures
        spec_document_bytes(ls, opts).len() > 0,
        decoded_lines(file_lines(spec_document_bytes(ls, opts)), Encoding::Utf8) == ls,
        has_crlf(file_lines(spec_document_bytes(ls, opts))) <==> opts.newline == Newline::CrLf,
{
    let n = ls.len() as int;
    let b = spec_document_bytes(ls, opts);
    lemma_saved_raw_lines(ls, opts, 0);
    assert(ls.take(0) =~= Seq::<Seq<char>>::empty());
    assert(line_start(ls, opts, 0) == 0);
    let pieces = Seq::new(n as nat, |j: int| saved_piece(ls, opts, j));
    assert(Seq::new(n as nat, |j: int| saved_piece(ls, opts, 0 + j)) =~= pieces);
    let r = raw_lines(b, 0);
    assert(r == pieces + seq![Seq::<u8>::empty()]);
    assert(r.last().len() == 0);
    assert(r.drop_last() =~= pieces);
    assert(file_lines(b) == pieces);
    lemma_doc_line(ls, opts, 0);
    lemma_doc_prefix(ls, opts, 1, n);
    assert(ls.take(n) =~= ls);
    assert forall|k: int| 0 <= k < n implies strip_cr(#[trigger] pieces[k]) == head(opts, k) + encode_utf8(ls[k]) by {
        let p = pieces[k];
        let core = head(opts, k) + encode_utf8(ls[k]);
        if opts.newline == Newline::CrLf {
            assert(p =~= core + seq![13u8]);
            assert(p.drop_last() =~= core);
        } else {
            assert(p =~= core);
            if p.len() > 0 && p.last() == 13u8 {
                let el = encode_utf8(ls[k]);
                lemma_last_byte_cr(ls[k]);
                if el.len() > 0 {
                    assert(p.last() == el.last());
                } else {
                    assert(p =~= head(opts, k));
                }
            }
        }
    }
    let dl = decoded_lines(pieces, Encoding::Utf8);
    assert forall|k: int| 0 <= k < n implies #[trigger] dl[k] == ls[k] by {
        let l = ls[k];
        let el = encode_utf8(l);
        let core = head(opts, k) + el;
        assert(dl[k] == line_text(Encoding::Utf8, strip_cr(pieces[k])));
        vstd::utf8::encode_utf8_valid_utf8(l);
        vstd::utf8::encode_utf8_decode_utf8(l);
        if k == 0 && opts.bom {
            assert(core.skip(3) =~= el);
            assert(has_utf8_bom(core));
        } else {
            assert(core =~= el);
            lemma_bom_bytes_start(l);
        }
    }
    assert(dl =~= ls);
    if opts.newline == Newline::CrLf {
        assert(pieces[0].len() > 0 && pieces[0].last() == 13u8);
    } else {
        assert forall|k: int| 0 <= k < pieces.len() implies !((#[trigger] pieces[k]).len() > 0 && pieces[k].last() == 13u8) by {
            let core = head(opts, k) + encode_utf8(ls[k]);
            assert(strip_cr(pieces[k]) == core);
            assert(pieces[k] =~= core);
        }
    }
}

} // verus!
