//! Big-endian integers, runs of zero bytes, and facts about UTF-8 bytes.
use vstd::prelude::*;
use vstd::utf8::*;
use crate::text::has_char;

verus! {

/// The two big-endian bytes of `v`.
pub open spec fn be16(v: u16) -> Seq<u8> {
    seq![(v / 256) as u8, (v % 256) as u8]
}

/// The four big-endian bytes of `v`.
pub open spec fn be32(v: u32) -> Seq<u8> {
    seq![(v / 0x1000000) as u8, ((v / 0x10000) % 256) as u8, ((v / 256) % 256) as u8, (v % 256) as u8]
}

/// The 16-bit value of two big-endian bytes.
pub open spec fn from_be16(hi: u8, lo: u8) -> u16 {
    (hi * 256 + lo) as u16
}

/// The 32-bit value of four big-endian bytes.
pub open spec fn from_be32(b0: u8, b1: u8, b2: u8, b3: u8) -> u32 {
    (b0 * 0x1000000 + b1 * 0x10000 + b2 * 256 + b3) as u32
}

/// `n` zero bytes.
pub open spec fn zeros(n: nat) -> Seq<u8> {
    Seq::new(n, |i: int| 0u8)
}

/// Reading back the bytes of `be16` gives the value.
pub proof fn lemma_be16_roundtrip(v: u16)
    ensures
        from_be16(be16(v)[0], be16(v)[1]) == v,
{
    assert(((v / 256) as u8) * 256 + ((v % 256) as u8) == v) by (nonlinear_arith);
}

/// Reading back the bytes of `be32` gives the value.
pub proof fn lemma_be32_roundtrip(v: u32)
    ensures
        from_be32(be32(v)[0], be32(v)[1], be32(v)[2], be32(v)[3]) == v,
{
    let b0 = (v / 0x1000000) as u8;
    let b1 = ((v / 0x10000) % 256) as u8;
    let b2 = ((v / 256) % 256) as u8;
    let b3 = (v % 256) as u8;
    assert(b0 * 0x1000000 + b1 * 0x10000 + b2 * 256 + b3 == v) by (nonlinear_arith)
        requires
            b0 == v / 0x1000000,
            b1 == (v / 0x10000) % 256,
            b2 == (v / 256) % 256,
            b3 == v % 256,
    {
        assert(v == (v / 256) * 256 + v % 256);
        assert(v / 256 == (v / 0x10000) * 256 + (v / 256) % 256);
        assert(v / 0x10000 == (v / 256) / 256);
        assert(v / 0x10000 == (v / 0x1000000) * 256 + (v / 0x10000) % 256);
        assert(v / 0x1000000 == (v / 0x10000) / 256);
    }
}

/// The big-endian bytes of `v`.
pub fn be16_bytes(v: u16) -> (r: [u8; 2])
    ensures
        r@ == be16(v),
{
    let r = [(v / 256) as u8, (v % 256) as u8];
    assert(r@ =~= be16(v));
    r
}

/// The big-endian bytes of `v`.
pub fn be32_bytes(v: u32) -> (r: [u8; 4])
    ensures
        r@ == be32(v),
{
    let r = [(v / 0x1000000) as u8, ((v / 0x10000) % 256) as u8, ((v / 256) % 256) as u8, (v % 256) as u8];
    assert(r@ =~= be32(v));
    r
}

/// No byte of the UTF-8 encoding of a character other than NUL is zero.
pub proof fn lemma_scalar_bytes_nonzero(c: char)
    requires
        c != '\0',
    ensures
        forall|i: int|
            0 <= i < encode_scalar(c as u32).len() ==> #[trigger] encode_scalar(c as u32)[i] != 0,
{
    let u = c as u32;
    char_is_scalar(c);
    if u == 0 {
        char_u32_cast(c, u);
        assert(c == (0u32 as char));
    }
    assert(u != 0 && u <= 0x7F ==> (u & 0x7F) as u8 != 0) by (bit_vector);
    let b2 = ((u >> 6) & 0x1F) as u8;
    assert(0xC0 | b2 != 0) by (bit_vector);
    let b3 = ((u >> 12) & 0x0F) as u8;
    assert(0xE0 | b3 != 0) by (bit_vector);
    let b4 = ((u >> 18) & 0x7) as u8;
    assert(0xF0 | b4 != 0) by (bit_vector);
    let c1 = (u & 0x3F) as u8;
    assert(0x80 | c1 != 0) by (bit_vector);
    let c2 = ((u >> 6) & 0x3F) as u8;
    assert(0x80 | c2 != 0) by (bit_vector);
    let c3 = ((u >> 12) & 0x3F) as u8;
    assert(0x80 | c3 != 0) by (bit_vector);
}

/// The UTF-8 encoding of a text without NUL has no zero byte.
pub proof fn lemma_utf8_no_zero(s: Seq<char>)
    requires
        !has_char(s, '\0'),
    ensures
        forall|i: int| 0 <= i < encode_utf8(s).len() ==> #[trigger] encode_utf8(s)[i] != 0,
    decreases s.len(),
{
    if s.len() > 0 {
        assert(s[0] != '\0');
        lemma_scalar_bytes_nonzero(s[0]);
        let rest = s.drop_first();
        assert(!has_char(rest, '\0')) by {
            if has_char(rest, '\0') {
                let i = choose|i: int| 0 <= i < rest.len() && rest[i] == '\0';
                assert(s[i + 1] == '\0');
            }
        }
        lemma_utf8_no_zero(rest);
        let head = encode_scalar(s[0] as u32);
        assert(encode_utf8(s) == head + encode_utf8(rest));
        assert forall|i: int| 0 <= i < encode_utf8(s).len() implies #[trigger] encode_utf8(s)[i]
            != 0 by {
            if i < head.len() {
                assert(encode_utf8(s)[i] == head[i]);
            } else {
                assert(encode_utf8(s)[i] == encode_utf8(rest)[i - head.len()]);
            }
        }
    }
}

} // verus!
