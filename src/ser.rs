//! The encoder: appends the bytes of each primitive to an owned buffer.
use crate::error::{Error, Result};
use crate::wire::{encode_utf8_char, lemma_char_width_of_encoding, le_bytes, put_u16, put_u32, put_u64};
use vstd::prelude::*;
use vstd::utf8::encode_utf8;

verus! {

/// The bytes of a boolean.
pub open spec fn bool_bytes(v: bool) -> Seq<u8> {
    seq![if v { 1u8 } else { 0u8 }]
}

/// The bytes of a length or count: a `u64`, least significant byte first.
pub open spec fn len_bytes(n: nat) -> Seq<u8> {
    le_bytes(n, 8)
}

/// The bytes of text: its UTF-8 length, then its UTF-8 bytes.
pub open spec fn str_bytes(s: Seq<char>) -> Seq<u8> {
    len_bytes(encode_utf8(s).len()) + encode_utf8(s)
}

/// The bytes of a byte buffer: its length, then the bytes themselves.
pub open spec fn buf_bytes(b: Seq<u8>) -> Seq<u8> {
    len_bytes(b.len()) + b
}

/// An append-only byte sink that the value producer drives one primitive at a time.
pub struct Serializer {
    out: Vec<u8>,
}

impl View for Serializer {
    type V = Seq<u8>;

    /// The bytes written so far.
    closed spec fn view(&self) -> Seq<u8> {
        self.out@
    }
}

impl Serializer {
    /// A sink that appends to `out`.
    pub fn new(out: Vec<u8>) -> (r: Self)
        ensures
            r@ == out@,
    {
        Serializer { out }
    }

    /// The bytes written, with what `out` held before.
    pub fn into_inner(self) -> (r: Vec<u8>)
        ensures
            r@ == self@,
    {
        self.out
    }

    /// The bytes written so far.
    pub fn as_bytes(&self) -> (r: &Vec<u8>)
        ensures
            r@ == self@,
    {
        &self.out
    }

    /// Unit, unit structs and absent payloads take no bytes.
    pub fn serialize_unit(&mut self)
        ensures
            final(self)@ == old(self)@,
    {
    }

    pub fn serialize_bool(&mut self, v: bool)
        ensures
            final(self)@ == old(self)@ + bool_bytes(v),
    {
        self.out.push(if v { 1 } else { 0 });
    }

    pub fn serialize_u8(&mut self, v: u8)
        ensures
            final(self)@ == old(self)@ + seq![v],
    {
        self.out.push(v);
    }

    pub fn serialize_u16(&mut self, v: u16)
        ensures
            final(self)@ == old(self)@ + le_bytes(v as nat, 2),
    {
        put_u16(&mut self.out, v);
    }

    pub fn serialize_u32(&mut self, v: u32)
        ensures
            final(self)@ == old(self)@ + le_bytes(v as nat, 4),
    {
        put_u32(&mut self.out, v);
    }

    pub fn serialize_u64(&mut self, v: u64)
        ensures
            final(self)@ == old(self)@ + le_bytes(v as nat, 8),
    {
        put_u64(&mut self.out, v);
    }

    /// Signed integers are written as their two's-complement bit pattern.
    pub fn serialize_i8(&mut self, v: i8)
        ensures
            final(self)@ == old(self)@ + seq![v as u8],
    {
        self.out.push(v as u8);
    }

    pub fn serialize_i16(&mut self, v: i16)
        ensures
            final(self)@ == old(self)@ + le_bytes((v as u16) as nat, 2),
    {
        put_u16(&mut self.out, v as u16);
    }

    pub fn serialize_i32(&mut self, v: i32)
        ensures
            final(self)@ == old(self)@ + le_bytes((v as u32) as nat, 4),
    {
        put_u32(&mut self.out, v as u32);
    }

    pub fn serialize_i64(&mut self, v: i64)
        ensures
            final(self)@ == old(self)@ + le_bytes((v as u64) as nat, 8),
    {
        put_u64(&mut self.out, v as u64);
    }

    /// A character is its UTF-8 bytes, with no length before them.
    pub fn serialize_char(&mut self, c: char)
        ensures
            final(self)@ == old(self)@ + encode_utf8(seq![c]),
    {
        let enc = encode_utf8_char(c);
        proof {
            lemma_char_width_of_encoding(c);
        }
        self.out.extend_from_slice(enc.as_slice());
    }

    pub fn serialize_str(&mut self, v: &str)
        ensures
            final(self)@ == old(self)@ + str_bytes(v@),
    {
        let bytes = v.as_bytes();
        put_u64(&mut self.out, bytes.len() as u64);
        self.out.extend_from_slice(bytes);
    }

    pub fn serialize_bytes(&mut self, v: &[u8])
        ensures
            final(self)@ == old(self)@ + buf_bytes(v@),
    {
        put_u64(&mut self.out, v.len() as u64);
        self.out.extend_from_slice(v);
    }

    /// An absent optional: the presence flag 0.
    pub fn serialize_none(&mut self)
        ensures
            final(self)@ == old(self)@ + seq![0u8],
    {
        self.out.push(0);
    }

    /// A present optional: the presence flag 1; the payload follows.
    pub fn serialize_some(&mut self)
        ensures
            final(self)@ == old(self)@ + seq![1u8],
    {
        self.out.push(1);
    }

    /// A length or count: a `u64`.
    pub fn serialize_len(&mut self, len: usize)
        ensures
            final(self)@ == old(self)@ + len_bytes(len as nat),
    {
        put_u64(&mut self.out, len as u64);
    }

    /// Opens a sequence of `len` elements by writing the count. The length must be
    /// known: a sequence of unknown length is refused and nothing is written.
    pub fn serialize_seq(&mut self, len: Option<usize>) -> (r: Result<()>)
        ensures
            len is Some ==> r is Ok && final(self)@ == old(self)@ + len_bytes(len->0 as nat),
            len is None ==> r == Err::<(), Error>(Error::UnsupportedOperation) && final(self)@ == old(self)@,
    {
        match len {
            Some(n) => {
                self.serialize_len(n);
                Ok(())
            },
            None => Err(Error::UnsupportedOperation),
        }
    }

    /// Opens a map of `len` entries by writing the count, as for a sequence.
    pub fn serialize_map(&mut self, len: Option<usize>) -> (r: Result<()>)
        ensures
            len is Some ==> r is Ok && final(self)@ == old(self)@ + len_bytes(len->0 as nat),
            len is None ==> r == Err::<(), Error>(Error::UnsupportedOperation) && final(self)@ == old(self)@,
    {
        self.serialize_seq(len)
    }

    /// Opens a variant of an enumeration: its zero-based index as a `u32`.
    pub fn serialize_variant_index(&mut self, index: u32)
        ensures
            final(self)@ == old(self)@ + le_bytes(index as nat, 4),
    {
        put_u32(&mut self.out, index);
    }
}

} // verus!
