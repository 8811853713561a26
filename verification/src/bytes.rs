//! Byte searches backed by the `memchr` crate.
use vstd::prelude::*;
use vstd::utf8::{encode_utf8, encode_scalar};

verus! {

/// `i` is the first position of `needle` in `hay`.
pub open spec fn first_at(hay: Seq<u8>, needle: u8, i: int) -> bool {
    0 <= i < hay.len() && hay[i] == needle && forall|j: int| 0 <= j < i ==> hay[j] != needle
}

/// `memchr::memchr`: the position of the first occurrence of `needle` in
/// `hay`, or `None` when it does not occur.
#[verifier::external_body]
pub(crate) fn memchr_find(needle: u8, hay: &[u8]) -> (r: Option<usize>)
    ensures
        match r {
            Some(i) => first_at(hay@, needle, i as int),
            None => forall|j: int| 0 <= j < hay@.len() ==> hay@[j] != needle,
        },
{
    memchr::memchr(needle, hay)
}

} // verus!

verus! {

/// `memchr::memchr2`: the position of the first byte of `hay` equal to `a`
/// or to `b`, or `None` when neither occurs.
#[verifier::external_body]
pub(crate) fn memchr2_find(a: u8, b: u8, hay: &[u8]) -> (r: Option<usize>)
    ensures
        match r {
            Some(i) => i < hay@.len() && (hay@[i as int] == a || hay@[i as int] == b)
                && forall|j: int| 0 <= j < i ==> hay@[j] != a && hay@[j] != b,
            None => forall|j: int| 0 <= j < hay@.len() ==> hay@[j] != a && hay@[j] != b,
        },
{
    memchr::memchr2(a, b, hay)
}

} // verus!

verus! {

/// Every byte of the UTF-8 encoding of a scalar above 0x7F is at least 0x80.
pub(crate) proof fn lemma_wide_scalar_bytes(v: u32)
    requires
        0x7F < v,
    ensures
        forall|i: int| 0 <= i < encode_scalar(v).len() ==> encode_scalar(v)[i] >= 0x80,
{
    assert(forall|a: u8| #[trigger] (0xC0u8 | a) >= 0x80u8) by (bit_vector);
    assert(forall|a: u8| #[trigger] (0xE0u8 | a) >= 0x80u8) by (bit_vector);
    assert(forall|a: u8| #[trigger] (0xF0u8 | a) >= 0x80u8) by (bit_vector);
    assert(forall|a: u8| #[trigger] (0x80u8 | a) >= 0x80u8) by (bit_vector);
}

/// An ASCII byte occurs in the UTF-8 encoding of `s` exactly when its
/// character occurs in `s`: multi-byte sequences use only bytes from 0x80 up.
pub proof fn lemma_ascii_byte_in_utf8(s: Seq<char>, b: u8)
    requires
        b < 128,
    ensures
        encode_utf8(s).contains(b) <==> s.contains(b as char),
    decreases s.len(),
{
    if s.len() == 0 {
        assert(encode_utf8(s) =~= Seq::<u8>::empty());
    } else {
        let c = s[0];
        let v = c as u32;
        let e = encode_scalar(v);
        let t = s.drop_first();
        let rest = encode_utf8(t);
        lemma_ascii_byte_in_utf8(t, b);
        assert(encode_utf8(s) == e + rest);
        let all = e + rest;
        if v <= 0x7F {
            assert((v & 0x7F) == v) by (bit_vector)
                requires
                    v <= 0x7F,
            ;
            assert(e =~= seq![v as u8]);
            assert((v as u8) as u32 == v) by (bit_vector)
                requires
                    v <= 0x7F,
            ;
            if e.contains(b) {
                let k = choose|k: int| 0 <= k < e.len() && e[k] == b;
                assert(k == 0);
                assert(b as u32 == v);
                vstd::utf8::char_u32_cast(c, v);
                assert(c == b as char);
            }
            if c == b as char {
                assert(e[0] == b);
            }
        } else {
            lemma_wide_scalar_bytes(v);
            if e.contains(b) {
                let k = choose|k: int| 0 <= k < e.len() && e[k] == b;
                assert(e[k] >= 0x80);
            }
            assert(c != b as char);
        }
        assert(e.contains(b) <==> c == b as char);
        if all.contains(b) {
            let k = choose|k: int| 0 <= k < all.len() && all[k] == b;
            if k >= e.len() {
                assert(rest[k - e.len()] == b);
                assert(rest.contains(b));
                let j = choose|j: int| 0 <= j < t.len() && t[j] == b as char;
                assert(s[j + 1] == b as char);
            } else {
                assert(e[k] == b);
                assert(s[0] == b as char);
            }
            assert(s.contains(b as char));
        }
        if s.contains(b as char) {
            let j = choose|j: int| 0 <= j < s.len() && s[j] == b as char;
            if j == 0 {
                let k = choose|k: int| 0 <= k < e.len() && e[k] == b;
                assert(all[k] == b);
            } else {
                assert(t[j - 1] == b as char);
                assert(t.contains(b as char));
                let k = choose|k: int| 0 <= k < rest.len() && rest[k] == b;
                assert(all[k + e.len()] == b);
            }
            assert(all.contains(b));
        }
    }
}

} // verus!
