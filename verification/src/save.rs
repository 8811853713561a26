//! The bytes a document is saved as: encoding, optional byte-order mark and
//! line endings.
use vstd::prelude::*;
use vstd::utf8::encode_utf8;
use crate::edit::Newline;
use crate::parse::{Encoding, views};

verus! {

/// How to save: encoding, whether to write a byte-order mark, line endings.
#[derive(Debug, Clone, Copy, PartialEq, Eq, Structural)]
pub struct SaveOptions {
    pub enc: Encoding,
    pub bom: bool,
    pub newline: Newline,
}

/// The bytes `encoding_rs` produces for `s` in EUC-KR (CP949); characters it
/// cannot map become numeric character references.
pub uninterp spec fn euc_kr_bytes(s: Seq<char>) -> Seq<u8>;

/// `encoding_rs::EUC_KR.encode`, made owned; named `euc_kr_bytes`.
#[verifier::external_body]
fn euc_kr_encode(s: &str) -> (b: Vec<u8>)
    ensures
        b@ == euc_kr_bytes(s@),
{
    let (cow, _, _) = encoding_rs::EUC_KR.encode(s);
    cow.into_owned()
}

/// The UTF-16 code units of one character: itself below U+10000, otherwise
/// a surrogate pair.
pub open spec fn utf16_of(c: char) -> Seq<u16> {
    let u = c as u32;
    if u < 0x10000 {
        seq![u as u16]
    } else {
        let v = (u - 0x10000) as int;
        seq![(0xD800 + v / 1024) as u16, (0xDC00 + v % 1024) as u16]
    }
}

/// A code unit as two bytes, little- or big-endian.
pub open spec fn unit_bytes(u: u16, little: bool) -> Seq<u8> {
    if little { seq![(u % 256) as u8, (u / 256) as u8] } else { seq![(u / 256) as u8, (u % 256) as u8] }
}

/// `s` in UTF-16, little- or big-endian, without a byte-order mark.
pub open spec fn utf16_bytes(s: Seq<char>, little: bool) -> Seq<u8>
    decreases s.len(),
{
    if s.len() == 0 {
        seq![]
    } else {
        let units = utf16_of(s.last());
        utf16_bytes(s.drop_last(), little) + if units.len() == 1 {
            unit_bytes(units[0], little)
        } else {
            unit_bytes(units[0], little) + unit_bytes(units[1], little)
        }
    }
}

/// UTF-16 with a fixed byte order, one character at a time: no text gives
/// no bytes, and a character appended to a text appends its code units, each
/// as its low byte then its high byte (little-endian) or the reverse
/// (big-endian): the character's own value below U+10000, otherwise the
/// surrogate pair `0xD800 + (c - 0x10000) / 1024`, `0xDC00 + (c - 0x10000) % 1024`.
pub proof fn lemma_utf16_code_units(s: Seq<char>, c: char, little: bool)
    ensures
        utf16_bytes(Seq::empty(), little) == Seq::<u8>::empty(),
        ({
            let u = c as u32 as int;
            let hi = 0xD800 + (u - 0x10000) / 1024;
            let lo = 0xDC00 + (u - 0x10000) % 1024;
            let two = |w: int| if little { seq![(w % 256) as u8, (w / 256) as u8] } else { seq![(w / 256) as u8, (w % 256) as u8] };
            utf16_bytes(s.push(c), little) == utf16_bytes(s, little) + if u < 0x10000 { two(u) } else { two(hi) + two(lo) }
        }),
{
    let t = s.push(c);
    assert(t.drop_last() =~= s);
    assert(t.last() == c);
    let u = c as u32;
    if u >= 0x10000 {
        assert(u <= 0x10FFFF) by {
            vstd::utf8::char_is_scalar(c);
        }
    }
}

/// The bytes of `s` in encoding `enc`.
pub open spec fn spec_encode(s: Seq<char>, enc: Encoding) -> Seq<u8> {
    match enc {
        Encoding::Utf8 => encode_utf8(s),
        Encoding::Cp949 => euc_kr_bytes(s),
        Encoding::Utf16Le => utf16_bytes(s, true),
        Encoding::Utf16Be => utf16_bytes(s, false),
    }
}

fn push_unit(out: &mut Vec<u8>, u: u16, little: bool)
    ensures
        final(out)@ == old(out)@ + unit_bytes(u, little),
{
    let lo = (u % 256) as u8;
    let hi = (u / 256) as u8;
    if little {
        out.push(lo);
        out.push(hi);
    } else {
        out.push(hi);
        out.push(lo);
    }
}

fn utf16_encode(s: &str, little: bool) -> (b: Vec<u8>)
    ensures
        b@ == utf16_bytes(s@, little),
{
    let cs = crate::chars::chars_of(s);
    let mut out: Vec<u8> = Vec::new();
    let mut i: usize = 0;
    while i < cs.len()
        invariant
            0 <= i <= cs@.len(),
            cs@ == s@,
            out@ == utf16_bytes(cs@.take(i as int), little),
        decreases cs.len() - i,
    {
        let c = cs[i];
        let u = c as u32;
        let ghost before = out@;
        assert(cs@.take(i as int + 1).drop_last() =~= cs@.take(i as int));
        assert(cs@.take(i as int + 1).last() == c);
        if u < 0x10000 {
            push_unit(&mut out, u as u16, little);
            assert(out@ =~= utf16_bytes(cs@.take(i as int + 1), little));
        } else {
            assert(u <= 0x10FFFF) by {
                vstd::utf8::char_is_scalar(c);
            }
            let v = u - 0x10000;
            let hi = (0xD800 + v / 1024) as u16;
            let lo = (0xDC00 + v % 1024) as u16;
            push_unit(&mut out, hi, little);
            push_unit(&mut out, lo, little);
            assert(out@ =~= utf16_bytes(cs@.take(i as int + 1), little));
        }
        i += 1;
    }
    assert(cs@.take(cs@.len() as int) =~= cs@);
    out
}

/// Encodes text for saving: UTF-8 as is, CP949 through `encoding_rs`,
/// UTF-16 as code units in the chosen byte order (no byte-order mark).
pub fn encode_bytes(s: &str, enc: Encoding) -> (b: Vec<u8>)
    ensures
        b@ == spec_encode(s@, enc),
{
    match enc {
        Encoding::Utf8 => vstd::slice::slice_to_vec(s.as_bytes()),
        Encoding::Cp949 => euc_kr_encode(s),
        Encoding::Utf16Le => utf16_encode(s, true),
        Encoding::Utf16Be => utf16_encode(s, false),
    }
}

/// The byte-order mark of an encoding (none for CP949).
pub open spec fn spec_bom(enc: Encoding) -> Seq<u8> {
    match enc {
        Encoding::Utf8 => seq![0xEFu8, 0xBBu8, 0xBFu8],
        Encoding::Utf16Le => seq![0xFFu8, 0xFEu8],
        Encoding::Utf16Be => seq![0xFEu8, 0xFFu8],
        Encoding::Cp949 => seq![],
    }
}

/// The byte-order mark written for an encoding.
pub fn bom_bytes(enc: Encoding) -> (b: Vec<u8>)
    ensures
        b@ == spec_bom(enc),
{
    let mut b: Vec<u8> = Vec::new();
    match enc {
        Encoding::Utf8 => {
            b.push(0xEF);
            b.push(0xBB);
            b.push(0xBF);
        },
        Encoding::Utf16Le => {
            b.push(0xFF);
            b.push(0xFE);
        },
        Encoding::Utf16Be => {
            b.push(0xFE);
            b.push(0xFF);
        },
        Encoding::Cp949 => {},
    }
    assert(b@ =~= spec_bom(enc));
    b
}

/// The line ending as text.
pub open spec fn newline_text(n: Newline) -> Seq<char> {
    match n {
        Newline::Lf => seq!['\n'],
        Newline::CrLf => seq!['\r', '\n'],
    }
}

/// The saved file: the byte-order mark when asked for, then each line
/// encoded and followed by the encoded line ending.
pub open spec fn spec_document_bytes(ls: Seq<Seq<char>>, opts: SaveOptions) -> Seq<u8>
    decreases ls.len(),
{
    if ls.len() == 0 {
        if opts.bom { spec_bom(opts.enc) } else { seq![] }
    } else {
        spec_document_bytes(ls.drop_last(), opts) + spec_encode(ls.last(), opts.enc)
            + spec_encode(newline_text(opts.newline), opts.enc)
    }
}

/// The bytes a save writes for `lines` with `opts`.
pub fn document_bytes(lines: &[String], opts: &SaveOptions) -> (b: Vec<u8>)
    ensures
        b@ == spec_document_bytes(views(lines@), *opts),
{
    let nl_text = match opts.newline {
        Newline::Lf => {
            let mut v: Vec<char> = Vec::new();
            v.push('\n');
            v
        },
        Newline::CrLf => {
            let mut v: Vec<char> = Vec::new();
            v.push('\r');
            v.push('\n');
            v
        },
    };
    assert(nl_text@ =~= newline_text(opts.newline));
    let nl = encode_bytes(crate::chars::string_of(nl_text.as_slice()).as_str(), opts.enc);
    let mut out: Vec<u8> = if opts.bom { bom_bytes(opts.enc) } else { Vec::new() };
    assert(out@ =~= spec_document_bytes(views(lines@).take(0), *opts));
    let mut i: usize = 0;
    while i < lines.len()
        invariant
            0 <= i <= lines@.len(),
            nl@ == spec_encode(newline_text(opts.newline), opts.enc),
            out@ == spec_document_bytes(views(lines@).take(i as int), *opts),
        decreases lines.len() - i,
    {
        let enc_line = encode_bytes(lines[i].as_str(), opts.enc);
        let ghost before = out@;
        let mut k: usize = 0;
        while k < enc_line.len()
            invariant
                0 <= k <= enc_line@.len(),
                out@ == before + enc_line@.take(k as int),
            decreases enc_line.len() - k,
        {
            out.push(enc_line[k]);
            k += 1;
            assert(out@ =~= before + enc_line@.take(k as int));
        }
        let ghost mid = out@;
        let mut j: usize = 0;
        while j < nl.len()
            invariant
                0 <= j <= nl@.len(),
                out@ == mid + nl@.take(j as int),
            decreases nl.len() - j,
        {
            out.push(nl[j]);
            j += 1;
            assert(out@ =~= mid + nl@.take(j as int));
        }
        proof {
            assert(enc_line@.take(enc_line@.len() as int) =~= enc_line@);
            assert(nl@.take(nl@.len() as int) =~= nl@);
            assert(views(lines@).take(i as int + 1).drop_last() =~= views(lines@).take(i as int));
            assert(views(lines@).take(i as int + 1).last() == lines@[i as int]@);
        }
        i += 1;
    }
    assert(views(lines@).take(lines@.len() as int) =~= views(lines@));
    out
}

} // verus!
