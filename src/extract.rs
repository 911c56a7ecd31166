//! Carving fixed-size fields out of arbitrary input bytes, padding with zeros
//! where the input runs out: how a fuzzing input becomes a record.
use crate::wire::{get_u16, get_u32, get_u64, le_value};
use vstd::prelude::*;
use vstd::slice::{slice_subrange, slice_to_vec};
use vstd::utf8::{decode_utf8, valid_utf8};

verus! {

/// How many of the `len` bytes wanted at `cursor` the input still has.
pub open spec fn available(data: Seq<u8>, cursor: int, len: int) -> int {
    if len < data.len() - cursor {
        len
    } else {
        data.len() - cursor
    }
}

/// The `len` bytes at `cursor`, with zeros in place of those past the end of `data`.
pub open spec fn extracted(data: Seq<u8>, cursor: int, len: int) -> Seq<u8> {
    data.subrange(cursor, cursor + available(data, cursor, len)) + Seq::new(
        (len - available(data, cursor, len)) as nat,
        |i: int| 0u8,
    )
}

/// Takes `len` bytes at `*cursor`, zero-padded past the end of `data`, and moves
/// the cursor past the bytes that were really there.
pub fn extract(data: &[u8], cursor: &mut usize, len: usize) -> (r: Vec<u8>)
    requires
        *old(cursor) <= data@.len(),
    ensures
        r@ == extracted(data@, *old(cursor) as int, len as int),
        r@.len() == len,
        *final(cursor) == *old(cursor) + available(data@, *old(cursor) as int, len as int),
{
    let start = *cursor;
    let avail = data.len() - start;
    let (left, right) = if len < avail {
        (len, 0)
    } else {
        (avail, len - avail)
    };
    let mut v = slice_to_vec(slice_subrange(data, start, start + left));
    *cursor = start + left;
    let mut k: usize = 0;
    while k < right
        invariant
            k <= right,
            v@ == data@.subrange(start as int, start + left) + Seq::new(k as nat, |i: int| 0u8),
        decreases right - k,
    {
        v.push(0);
        k = k + 1;
        assert(v@ =~= data@.subrange(start as int, start + left) + Seq::new(k as nat, |i: int| 0u8));
    }
    assert(v@ =~= extracted(data@, start as int, len as int));
    v
}

pub fn extract_u8(data: &[u8], cursor: &mut usize) -> (r: u8)
    requires
        *old(cursor) <= data@.len(),
    ensures
        r == extracted(data@, *old(cursor) as int, 1)[0],
        *final(cursor) == *old(cursor) + available(data@, *old(cursor) as int, 1),
{
    let v = extract(data, cursor, 1);
    v[0]
}

/// A `u16` from the next two bytes, least significant first.
pub fn extract_u16(data: &[u8], cursor: &mut usize) -> (r: u16)
    requires
        *old(cursor) <= data@.len(),
    ensures
        r as nat == le_value(extracted(data@, *old(cursor) as int, 2)),
        *final(cursor) == *old(cursor) + available(data@, *old(cursor) as int, 2),
{
    let v = extract(data, cursor, 2);
    assert(v@.subrange(0, 2) =~= v@);
    get_u16(v.as_slice(), 0)
}

/// A `u32` from the next four bytes, least significant first.
pub fn extract_u32(data: &[u8], cursor: &mut usize) -> (r: u32)
    requires
        *old(cursor) <= data@.len(),
    ensures
        r as nat == le_value(extracted(data@, *old(cursor) as int, 4)),
        *final(cursor) == *old(cursor) + available(data@, *old(cursor) as int, 4),
{
    let v = extract(data, cursor, 4);
    assert(v@.subrange(0, 4) =~= v@);
    get_u32(v.as_slice(), 0)
}

/// A `u64` from the next eight bytes, least significant first.
pub fn extract_u64(data: &[u8], cursor: &mut usize) -> (r: u64)
    requires
        *old(cursor) <= data@.len(),
    ensures
        r as nat == le_value(extracted(data@, *old(cursor) as int, 8)),
        *final(cursor) == *old(cursor) + available(data@, *old(cursor) as int, 8),
{
    let v = extract(data, cursor, 8);
    assert(v@.subrange(0, 8) =~= v@);
    get_u64(v.as_slice(), 0)
}

pub fn extract_i8(data: &[u8], cursor: &mut usize) -> (r: i8)
    requires
        *old(cursor) <= data@.len(),
    ensures
        r == extracted(data@, *old(cursor) as int, 1)[0] as i8,
        *final(cursor) == *old(cursor) + available(data@, *old(cursor) as int, 1),
{
    extract_u8(data, cursor) as i8
}

pub fn extract_i16(data: &[u8], cursor: &mut usize) -> (r: i16)
    requires
        *old(cursor) <= data@.len(),
    ensures
        r == (le_value(extracted(data@, *old(cursor) as int, 2)) as u16) as i16,
        *final(cursor) == *old(cursor) + available(data@, *old(cursor) as int, 2),
{
    extract_u16(data, cursor) as i16
}

pub fn extract_i32(data: &[u8], cursor: &mut usize) -> (r: i32)
    requires
        *old(cursor) <= data@.len(),
    ensures
        r == (le_value(extracted(data@, *old(cursor) as int, 4)) as u32) as i32,
        *final(cursor) == *old(cursor) + available(data@, *old(cursor) as int, 4),
{
    extract_u32(data, cursor) as i32
}

pub fn extract_i64(data: &[u8], cursor: &mut usize) -> (r: i64)
    requires
        *old(cursor) <= data@.len(),
    ensures
        r == (le_value(extracted(data@, *old(cursor) as int, 8)) as u64) as i64,
        *final(cursor) == *old(cursor) + available(data@, *old(cursor) as int, 8),
{
    extract_u64(data, cursor) as i64
}

/// `true` where the next byte is not zero.
pub fn extract_bool(data: &[u8], cursor: &mut usize) -> (r: bool)
    requires
        *old(cursor) <= data@.len(),
    ensures
        r == (extracted(data@, *old(cursor) as int, 1)[0] != 0),
        *final(cursor) == *old(cursor) + available(data@, *old(cursor) as int, 1),
{
    extract_u8(data, cursor) != 0
}

/// The text that `String::from_utf8_lossy` makes of `b`.
pub uninterp spec fn lossy_utf8(b: Seq<u8>) -> Seq<char>;

/// Relies on `String::from_utf8_lossy`: the result depends on the bytes alone, and
/// bytes that are valid UTF-8 come back as the text they encode.
#[verifier::external_body]
fn utf8_lossy(b: &[u8]) -> (r: String)
    ensures
        r@ == lossy_utf8(b@),
        valid_utf8(b@) ==> r@ == decode_utf8(b@),
{
    String::from_utf8_lossy(b).into_owned()
}

/// All the bytes from the cursor on, as text, with each invalid UTF-8 sequence
/// replaced. The cursor does not move.
pub fn extract_remainder_as_string(data: &[u8], cursor: &mut usize) -> (r: String)
    requires
        *old(cursor) <= data@.len(),
    ensures
        r@ == lossy_utf8(data@.skip(*old(cursor) as int)),
        valid_utf8(data@.skip(*old(cursor) as int)) ==> r@ == decode_utf8(
            data@.skip(*old(cursor) as int),
        ),
        *final(cursor) == *old(cursor),
{
    let right = slice_subrange(data, *cursor, data.len());
    assert(right@ =~= data@.skip(*cursor as int));
    utf8_lossy(right)
}

} // verus!
