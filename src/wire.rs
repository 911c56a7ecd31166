//! Byte layout of the primitives: little-endian integers and UTF-8 characters.
use byteorder::{ByteOrder, LittleEndian};
use vstd::array::array_as_slice;
use vstd::prelude::*;
use vstd::slice::slice_subrange;
use vstd::utf8::*;

verus! {

/// `256` to the power `n`: one more than the largest value that `n` bytes hold.
pub open spec fn byte_bound(n: nat) -> nat
    decreases n,
{
    if n == 0 {
        1
    } else {
        256 * byte_bound((n - 1) as nat)
    }
}

/// The `n` bytes of `v`, least significant first (`v` taken modulo `byte_bound(n)`).
pub open spec fn le_bytes(v: nat, n: nat) -> Seq<u8>
    decreases n,
{
    if n == 0 {
        Seq::empty()
    } else {
        seq![(v % 256) as u8] + le_bytes(v / 256, (n - 1) as nat)
    }
}

/// The number that the bytes `s` denote, least significant first.
pub open spec fn le_value(s: Seq<u8>) -> nat
    decreases s.len(),
{
    if s.len() == 0 {
        0
    } else {
        s[0] as nat + 256 * le_value(s.drop_first())
    }
}

pub proof fn lemma_le_bytes_len(v: nat, n: nat)
    ensures
        le_bytes(v, n).len() == n,
    decreases n,
{
    if n > 0 {
        lemma_le_bytes_len(v / 256, (n - 1) as nat);
    }
}

/// Reading back the bytes of a value that fits gives the value.
pub proof fn lemma_le_round_trip(v: nat, n: nat)
    requires
        v < byte_bound(n),
    ensures
        le_bytes(v, n).len() == n,
        le_value(le_bytes(v, n)) == v,
    decreases n,
{
    lemma_le_bytes_len(v, n);
    if n > 0 {
        let m = (n - 1) as nat;
        assert(v / 256 < byte_bound(m)) by (nonlinear_arith)
            requires
                v < 256 * byte_bound(m),
        ;
        lemma_le_round_trip(v / 256, m);
        let s = le_bytes(v, n);
        assert(s.drop_first() =~= le_bytes(v / 256, m));
        assert(v == v % 256 + 256 * (v / 256)) by (nonlinear_arith);
    }
}

/// `n` bytes denote a number below `byte_bound(n)`.
pub proof fn lemma_le_value_bound(s: Seq<u8>)
    ensures
        le_value(s) < byte_bound(s.len()),
    decreases s.len(),
{
    if s.len() > 0 {
        let rest = s.drop_first();
        lemma_le_value_bound(rest);
        let a = s[0] as nat;
        let b = le_value(rest);
        let m = byte_bound(rest.len());
        assert(a + 256 * b < 256 * m) by (nonlinear_arith)
            requires
                a < 256,
                b < m,
        ;
    }
}

pub proof fn lemma_byte_bounds()
    ensures
        byte_bound(1) == 0x100,
        byte_bound(2) == 0x1_0000,
        byte_bound(4) == 0x1_0000_0000,
        byte_bound(8) == 0x1_0000_0000_0000_0000,
{
    reveal_with_fuel(byte_bound, 9);
}

/// The two bytes of `v`, least significant first.
/// Relies on byteorder's `LittleEndian::write_u16`, which stores `v.to_le_bytes()`.
#[verifier::external_body]
fn u16_le_bytes(v: u16) -> (r: [u8; 2])
    ensures
        r@ == le_bytes(v as nat, 2),
{
    let mut buf = [0u8; 2];
    LittleEndian::write_u16(&mut buf, v);
    buf
}

/// Appends the two bytes of `v`, least significant first.
pub(crate) fn put_u16(out: &mut Vec<u8>, v: u16)
    ensures
        final(out)@ == old(out)@ + le_bytes(v as nat, 2),
{
    let buf = u16_le_bytes(v);
    out.extend_from_slice(array_as_slice(&buf));
}

/// The four bytes of `v`, least significant first.
/// Relies on byteorder's `LittleEndian::write_u32`, which stores `v.to_le_bytes()`.
#[verifier::external_body]
fn u32_le_bytes(v: u32) -> (r: [u8; 4])
    ensures
        r@ == le_bytes(v as nat, 4),
{
    let mut buf = [0u8; 4];
    LittleEndian::write_u32(&mut buf, v);
    buf
}

/// Appends the four bytes of `v`, least significant first.
pub(crate) fn put_u32(out: &mut Vec<u8>, v: u32)
    ensures
        final(out)@ == old(out)@ + le_bytes(v as nat, 4),
{
    let buf = u32_le_bytes(v);
    out.extend_from_slice(array_as_slice(&buf));
}

/// The eight bytes of `v`, least significant first.
/// Relies on byteorder's `LittleEndian::write_u64`, which stores `v.to_le_bytes()`.
#[verifier::external_body]
fn u64_le_bytes(v: u64) -> (r: [u8; 8])
    ensures
        r@ == le_bytes(v as nat, 8),
{
    let mut buf = [0u8; 8];
    LittleEndian::write_u64(&mut buf, v);
    buf
}

/// Appends the eight bytes of `v`, least significant first.
pub(crate) fn put_u64(out: &mut Vec<u8>, v: u64)
    ensures
        final(out)@ == old(out)@ + le_bytes(v as nat, 8),
{
    let buf = u64_le_bytes(v);
    out.extend_from_slice(array_as_slice(&buf));
}

/// The `u16` stored least significant first at `buf[pos..pos + 2]`.
/// Relies on byteorder's `LittleEndian::read_u16` (`u16::from_le_bytes` of the first two bytes).
#[verifier::external_body]
pub(crate) fn get_u16(buf: &[u8], pos: usize) -> (r: u16)
    requires
        pos + 2 <= buf@.len(),
    ensures
        r as nat == le_value(buf@.subrange(pos as int, pos + 2)),
{
    LittleEndian::read_u16(&buf[pos..])
}

/// The `u32` stored least significant first at `buf[pos..pos + 4]`.
/// Relies on byteorder's `LittleEndian::read_u32` (`u32::from_le_bytes` of the first four bytes).
#[verifier::external_body]
pub(crate) fn get_u32(buf: &[u8], pos: usize) -> (r: u32)
    requires
        pos + 4 <= buf@.len(),
    ensures
        r as nat == le_value(buf@.subrange(pos as int, pos + 4)),
{
    LittleEndian::read_u32(&buf[pos..])
}

/// The `u64` stored least significant first at `buf[pos..pos + 8]`.
/// Relies on byteorder's `LittleEndian::read_u64` (`u64::from_le_bytes` of the first eight bytes).
#[verifier::external_body]
pub(crate) fn get_u64(buf: &[u8], pos: usize) -> (r: u64)
    requires
        pos + 8 <= buf@.len(),
    ensures
        r as nat == le_value(buf@.subrange(pos as int, pos + 8)),
{
    LittleEndian::read_u64(&buf[pos..])
}

/// The length of the UTF-8 sequence that a leading byte `b` starts, or 0 where `b`
/// starts none (a continuation byte, or one that no scalar value begins with).
pub open spec fn char_width(b: u8) -> nat {
    if b <= 0x7F {
        1
    } else if 0xC2 <= b <= 0xDF {
        2
    } else if 0xE0 <= b <= 0xEF {
        3
    } else if 0xF0 <= b <= 0xF4 {
        4
    } else {
        0
    }
}

/// The width that the leading byte `b` announces (see `char_width`).
pub fn utf8_char_width(b: u8) -> (r: usize)
    ensures
        r == char_width(b),
{
    if b <= 0x7F {
        1
    } else if 0xC2 <= b && b <= 0xDF {
        2
    } else if 0xE0 <= b && b <= 0xEF {
        3
    } else if 0xF0 <= b && b <= 0xF4 {
        4
    } else {
        0
    }
}

/// The leading byte of every character's encoding announces the encoding's length.
pub proof fn lemma_char_width_of_encoding(c: char)
    ensures
        encode_scalar(c as u32).len() >= 1,
        char_width(encode_scalar(c as u32)[0]) == encode_scalar(c as u32).len(),
        encode_utf8(seq![c]) == encode_scalar(c as u32),
{
    let v = c as u32;
    char_is_scalar(c);
    if has_width_1_encoding(v) {
        assert(leading_byte_width_1(v) <= 0x7F) by (bit_vector)
            requires
                v <= 0x7F,
        ;
    } else if has_width_2_encoding(v) {
        assert(0xC2 <= leading_byte_width_2(v) <= 0xDF) by (bit_vector)
            requires
                0x80 <= v <= 0x7FF,
        ;
    } else if has_width_3_encoding(v) {
        assert(0xE0 <= leading_byte_width_3(v) <= 0xEF) by (bit_vector)
            requires
                0x800 <= v <= 0xFFFF,
        ;
    } else {
        assert(0xF0 <= leading_byte_width_4(v) <= 0xF4) by (bit_vector)
            requires
                0x10000 <= v <= 0x10FFFF,
        ;
    }
    assert(seq![c].drop_first() =~= Seq::<char>::empty());
    assert(encode_utf8(seq![c]) =~= encode_scalar(c as u32) + encode_utf8(Seq::<char>::empty()));
}

/// The UTF-8 encoding of one character, kept right-aligned in a four-byte buffer.
pub(crate) struct EncodeUtf8 {
    pub(crate) buf: [u8; 4],
    pub(crate) pos: usize,
}

impl EncodeUtf8 {
    /// The bytes of the encoding.
    pub(crate) open spec fn bytes(&self) -> Seq<u8> {
        self.buf@.subrange(self.pos as int, 4)
    }

    pub(crate) fn as_slice(&self) -> (r: &[u8])
        requires
            self.pos <= 4,
        ensures
            r@ == self.bytes(),
    {
        slice_subrange(array_as_slice(&self.buf), self.pos, 4)
    }
}

/// Encodes `c` as UTF-8, one to four bytes.
pub(crate) fn encode_utf8_char(c: char) -> (r: EncodeUtf8)
    ensures
        r.pos <= 3,
        r.bytes() == encode_scalar(c as u32),
{
    let code = c as u32;
    proof {
        char_is_scalar(c);
    }
    if code < 0x80 {
        let b0 = code as u8;
        assert(b0 == leading_byte_width_1(code)) by (bit_vector)
            requires
                code < 0x80,
                b0 == code as u8,
        ;
        let r = EncodeUtf8 { buf: [0, 0, 0, b0], pos: 3 };
        assert(r.bytes() =~= encode_scalar(code));
        r
    } else if code < 0x800 {
        let b0 = ((code >> 6) & 0x1F) as u8 | 0xC0;
        let b1 = (code & 0x3F) as u8 | 0x80;
        assert(b0 == leading_byte_width_2(code) && b1 == last_continuation_byte(code))
            by (bit_vector)
            requires
                b0 == ((code >> 6) & 0x1F) as u8 | 0xC0,
                b1 == (code & 0x3F) as u8 | 0x80,
        ;
        let r = EncodeUtf8 { buf: [0, 0, b0, b1], pos: 2 };
        assert(r.bytes() =~= encode_scalar(code));
        r
    } else if code < 0x10000 {
        let b0 = ((code >> 12) & 0x0F) as u8 | 0xE0;
        let b1 = ((code >> 6) & 0x3F) as u8 | 0x80;
        let b2 = (code & 0x3F) as u8 | 0x80;
        assert(b0 == leading_byte_width_3(code) && b1 == second_last_continuation_byte(code)
            && b2 == last_continuation_byte(code)) by (bit_vector)
            requires
                b0 == ((code >> 12) & 0x0F) as u8 | 0xE0,
                b1 == ((code >> 6) & 0x3F) as u8 | 0x80,
                b2 == (code & 0x3F) as u8 | 0x80,
        ;
        let r = EncodeUtf8 { buf: [0, b0, b1, b2], pos: 1 };
        assert(r.bytes() =~= encode_scalar(code));
        r
    } else {
        let b0 = ((code >> 18) & 0x07) as u8 | 0xF0;
        let b1 = ((code >> 12) & 0x3F) as u8 | 0x80;
        let b2 = ((code >> 6) & 0x3F) as u8 | 0x80;
        let b3 = (code & 0x3F) as u8 | 0x80;
        assert(b0 == leading_byte_width_4(code) && b1 == third_last_continuation_byte(code)
            && b2 == second_last_continuation_byte(code) && b3 == last_continuation_byte(code))
            by (bit_vector)
            requires
                b0 == ((code >> 18) & 0x07) as u8 | 0xF0,
                b1 == ((code >> 12) & 0x3F) as u8 | 0x80,
                b2 == ((code >> 6) & 0x3F) as u8 | 0x80,
                b3 == (code & 0x3F) as u8 | 0x80,
        ;
        let r = EncodeUtf8 { buf: [b0, b1, b2, b3], pos: 0 };
        assert(r.bytes() =~= encode_scalar(code));
        r
    }
}

} // verus!
