//! The decoder: a forward-only cursor over an input buffer.
use crate::error::{Error, IoCause, Result};
use crate::wire::{char_width, get_u16, get_u32, get_u64, le_value, lemma_char_width_of_encoding, utf8_char_width};
use vstd::prelude::*;
use vstd::slice::slice_subrange;
use vstd::slice::slice_to_vec;
use vstd::utf8::{encode_scalar, encode_utf8, valid_utf8};

verus! {

/// The length that the first eight bytes of `s` announce.
pub open spec fn len_prefix(s: Seq<u8>) -> int {
    le_value(s.take(8)) as int
}

/// The failure that reading past the end of the input gives.
pub open spec fn truncated<T>() -> Result<T> {
    Err(Error::IoFailure(IoCause::UnexpectedEof))
}

/// Makes a `String` of `v` where `v` is valid UTF-8.
/// Relies on `String::from_utf8`: it succeeds exactly on valid UTF-8, and the
/// string it returns holds the bytes `v`.
#[verifier::external_body]
fn string_from_utf8(v: Vec<u8>) -> (r: Option<String>)
    ensures
        r is Some <==> valid_utf8(v@),
        r is Some ==> encode_utf8(r->0@) == v@,
{
    String::from_utf8(v).ok()
}

/// A forward-only byte source that the value consumer drives one primitive at a time.
pub struct Deserializer {
    bytes: Vec<u8>,
    pos: usize,
}

impl View for Deserializer {
    type V = Seq<u8>;

    /// The bytes not yet read.
    closed spec fn view(&self) -> Seq<u8> {
        self.bytes@.subrange(self.pos as int, self.bytes@.len() as int)
    }
}

impl Deserializer {
    #[verifier::type_invariant]
    spec fn inv(&self) -> bool {
        self.pos <= self.bytes@.len()
    }

    /// A source that reads `bytes` from the start.
    pub fn new(bytes: Vec<u8>) -> (r: Self)
        ensures
            r@ == bytes@,
    {
        let r = Deserializer { bytes, pos: 0 };
        assert(r@ =~= bytes@);
        r
    }

    /// The number of bytes not yet read.
    pub fn remaining(&self) -> (r: usize)
        ensures
            r == self@.len(),
    {
        proof {
            use_type_invariant(self);
        }
        self.bytes.len() - self.pos
    }

    /// Consumes `n` bytes.
    fn advance(&mut self, n: usize)
        requires
            n <= old(self)@.len(),
        ensures
            final(self)@ == old(self)@.skip(n as int),
    {
        proof {
            use_type_invariant(&*self);
        }
        let len = self.bytes.len();
        assert(self@.len() == len - self.pos);
        self.pos = self.pos + n;
        assert(self@ =~= old(self)@.skip(n as int));
    }

    pub fn deserialize_u8(&mut self) -> (r: Result<u8>)
        ensures
            old(self)@.len() >= 1 ==> r == Ok::<u8, Error>(old(self)@[0])
                && final(self)@ == old(self)@.skip(1),
            old(self)@.len() < 1 ==> r == truncated::<u8>() && final(self)@ == old(self)@,
    {
        proof {
            use_type_invariant(&*self);
        }
        if self.remaining() < 1 {
            return Err(Error::IoFailure(IoCause::UnexpectedEof));
        }
        let b = self.bytes[self.pos];
        self.advance(1);
        Ok(b)
    }

    pub fn deserialize_u16(&mut self) -> (r: Result<u16>)
        ensures
            old(self)@.len() >= 2 ==> r == Ok::<u16, Error>(le_value(old(self)@.take(2)) as u16)
                && final(self)@ == old(self)@.skip(2),
            old(self)@.len() < 2 ==> r == truncated::<u16>() && final(self)@ == old(self)@,
    {
        proof {
            use_type_invariant(&*self);
        }
        if self.remaining() < 2 {
            return Err(Error::IoFailure(IoCause::UnexpectedEof));
        }
        let v = get_u16(self.bytes.as_slice(), self.pos);
        assert(self.bytes@.subrange(self.pos as int, self.pos + 2) =~= self@.take(2));
        self.advance(2);
        Ok(v)
    }

    pub fn deserialize_u32(&mut self) -> (r: Result<u32>)
        ensures
            old(self)@.len() >= 4 ==> r == Ok::<u32, Error>(le_value(old(self)@.take(4)) as u32)
                && final(self)@ == old(self)@.skip(4),
            old(self)@.len() < 4 ==> r == truncated::<u32>() && final(self)@ == old(self)@,
    {
        proof {
            use_type_invariant(&*self);
        }
        if self.remaining() < 4 {
            return Err(Error::IoFailure(IoCause::UnexpectedEof));
        }
        let v = get_u32(self.bytes.as_slice(), self.pos);
        assert(self.bytes@.subrange(self.pos as int, self.pos + 4) =~= self@.take(4));
        self.advance(4);
        Ok(v)
    }

    pub fn deserialize_u64(&mut self) -> (r: Result<u64>)
        ensures
            old(self)@.len() >= 8 ==> r == Ok::<u64, Error>(le_value(old(self)@.take(8)) as u64)
                && final(self)@ == old(self)@.skip(8),
            old(self)@.len() < 8 ==> r == truncated::<u64>() && final(self)@ == old(self)@,
    {
        proof {
            use_type_invariant(&*self);
        }
        if self.remaining() < 8 {
            return Err(Error::IoFailure(IoCause::UnexpectedEof));
        }
        let v = get_u64(self.bytes.as_slice(), self.pos);
        assert(self.bytes@.subrange(self.pos as int, self.pos + 8) =~= self@.take(8));
        self.advance(8);
        Ok(v)
    }

    pub fn deserialize_i8(&mut self) -> (r: Result<i8>)
        ensures
            old(self)@.len() >= 1 ==> r == Ok::<i8, Error>(old(self)@[0] as i8)
                && final(self)@ == old(self)@.skip(1),
            old(self)@.len() < 1 ==> r == truncated::<i8>() && final(self)@ == old(self)@,
    {
        match self.deserialize_u8() {
            Ok(v) => Ok(v as i8),
            Err(e) => Err(e),
        }
    }

    pub fn deserialize_i16(&mut self) -> (r: Result<i16>)
        ensures
            old(self)@.len() >= 2 ==> r == Ok::<i16, Error>((le_value(old(self)@.take(2)) as u16) as i16)
                && final(self)@ == old(self)@.skip(2),
            old(self)@.len() < 2 ==> r == truncated::<i16>() && final(self)@ == old(self)@,
    {
        match self.deserialize_u16() {
            Ok(v) => Ok(v as i16),
            Err(e) => Err(e),
        }
    }

    pub fn deserialize_i32(&mut self) -> (r: Result<i32>)
        ensures
            old(self)@.len() >= 4 ==> r == Ok::<i32, Error>((le_value(old(self)@.take(4)) as u32) as i32)
                && final(self)@ == old(self)@.skip(4),
            old(self)@.len() < 4 ==> r == truncated::<i32>() && final(self)@ == old(self)@,
    {
        match self.deserialize_u32() {
            Ok(v) => Ok(v as i32),
            Err(e) => Err(e),
        }
    }

    pub fn deserialize_i64(&mut self) -> (r: Result<i64>)
        ensures
            old(self)@.len() >= 8 ==> r == Ok::<i64, Error>((le_value(old(self)@.take(8)) as u64) as i64)
                && final(self)@ == old(self)@.skip(8),
            old(self)@.len() < 8 ==> r == truncated::<i64>() && final(self)@ == old(self)@,
    {
        match self.deserialize_u64() {
            Ok(v) => Ok(v as i64),
            Err(e) => Err(e),
        }
    }

    /// A boolean: the byte 0 or 1. Any other byte fails; it is consumed all the same.
    pub fn deserialize_bool(&mut self) -> (r: Result<bool>)
        ensures
            old(self)@.len() < 1 ==> r == truncated::<bool>() && final(self)@ == old(self)@,
            old(self)@.len() >= 1 && old(self)@[0] > 1 ==> r == Err::<bool, Error>(Error::InvalidBoolean)
                && final(self)@ == old(self)@.skip(1),
            old(self)@.len() >= 1 && old(self)@[0] <= 1 ==> r == Ok::<bool, Error>(old(self)@[0] == 1)
                && final(self)@ == old(self)@.skip(1),
    {
        proof {
            use_type_invariant(&*self);
        }
        if self.remaining() < 1 {
            return Err(Error::IoFailure(IoCause::UnexpectedEof));
        }
        let b = self.bytes[self.pos];
        self.advance(1);
        if b > 1 {
            return Err(Error::InvalidBoolean);
        }
        Ok(b == 1)
    }

    /// The presence flag of an optional: `true` where a payload follows. The flag is a
    /// boolean byte, so any byte but 0 and 1 fails with `InvalidBoolean`.
    pub fn deserialize_option(&mut self) -> (r: Result<bool>)
        ensures
            old(self)@.len() < 1 ==> r == truncated::<bool>() && final(self)@ == old(self)@,
            old(self)@.len() >= 1 && old(self)@[0] > 1 ==> r == Err::<bool, Error>(Error::InvalidBoolean)
                && final(self)@ == old(self)@.skip(1),
            old(self)@.len() >= 1 && old(self)@[0] <= 1 ==> r == Ok::<bool, Error>(old(self)@[0] == 1)
                && final(self)@ == old(self)@.skip(1),
    {
        self.deserialize_bool()
    }

    /// The discriminant that opens a variant of an enumeration.
    pub fn deserialize_variant_index(&mut self) -> (r: Result<u32>)
        ensures
            old(self)@.len() >= 4 ==> r == Ok::<u32, Error>(le_value(old(self)@.take(4)) as u32)
                && final(self)@ == old(self)@.skip(4),
            old(self)@.len() < 4 ==> r == truncated::<u32>() && final(self)@ == old(self)@,
    {
        self.deserialize_u32()
    }

    /// The count that opens a sequence or a map, or the length of text or bytes.
    /// A count that `usize` cannot hold fails with `LengthOverflow`; its eight bytes are consumed.
    pub fn deserialize_len(&mut self) -> (r: Result<usize>)
        ensures
            old(self)@.len() < 8 ==> r == truncated::<usize>() && final(self)@ == old(self)@,
            old(self)@.len() >= 8 && len_prefix(old(self)@) > usize::MAX ==> r == Err::<usize, Error>(
                Error::LengthOverflow,
            ) && final(self)@ == old(self)@.skip(8),
            old(self)@.len() >= 8 && len_prefix(old(self)@) <= usize::MAX ==> r == Ok::<usize, Error>(
                len_prefix(old(self)@) as usize,
            ) && final(self)@ == old(self)@.skip(8),
    {
        proof {
            use_type_invariant(&*self);
        }
        if self.remaining() < 8 {
            return Err(Error::IoFailure(IoCause::UnexpectedEof));
        }
        let n = get_u64(self.bytes.as_slice(), self.pos);
        assert(self.bytes@.subrange(self.pos as int, self.pos + 8) =~= self@.take(8));
        self.advance(8);
        if n > usize::MAX as u64 {
            return Err(Error::LengthOverflow);
        }
        Ok(n as usize)
    }

    /// A byte buffer: its length, then that many bytes. Where the input runs out
    /// nothing is consumed; a length that `usize` cannot hold is.
    pub fn read_vec(&mut self) -> (r: Result<Vec<u8>>)
        ensures
            old(self)@.len() < 8 ==> r == truncated::<Vec<u8>>() && final(self)@ == old(self)@,
            old(self)@.len() >= 8 && len_prefix(old(self)@) > usize::MAX ==> r == Err::<Vec<u8>, Error>(
                Error::LengthOverflow,
            ) && final(self)@ == old(self)@.skip(8),
            old(self)@.len() >= 8 && len_prefix(old(self)@) <= usize::MAX && len_prefix(old(self)@)
                > old(self)@.len() - 8 ==> r == truncated::<Vec<u8>>() && final(self)@ == old(self)@,
            old(self)@.len() >= 8 && len_prefix(old(self)@) <= old(self)@.len() - 8 ==> r is Ok
                && r->Ok_0@ == old(self)@.subrange(8, 8 + len_prefix(old(self)@))
                && final(self)@ == old(self)@.skip(8 + len_prefix(old(self)@)),
    {
        proof {
            use_type_invariant(&*self);
        }
        let (start, n) = match self.peek_frame() {
            Ok(f) => f,
            Err(Error::LengthOverflow) => {
                self.advance(8);
                return Err(Error::LengthOverflow);
            },
            Err(e) => return Err(e),
        };
        let v = slice_to_vec(slice_subrange(self.bytes.as_slice(), start, start + n));
        assert(v@ =~= old(self)@.subrange(8, 8 + n));
        self.advance(8 + n);
        Ok(v)
    }

    /// Checks the length-prefixed frame at the cursor without consuming it, giving
    /// where its content starts and how long it is.
    fn peek_frame(&self) -> (r: Result<(usize, usize)>)
        ensures
            self@.len() < 8 ==> r == truncated::<(usize, usize)>(),
            self@.len() >= 8 && len_prefix(self@) > usize::MAX ==> r == Err::<(usize, usize), Error>(
                Error::LengthOverflow,
            ),
            self@.len() >= 8 && len_prefix(self@) <= usize::MAX && len_prefix(self@) > self@.len() - 8
                ==> r == truncated::<(usize, usize)>(),
            self@.len() >= 8 && len_prefix(self@) <= self@.len() - 8 ==> r is Ok
                && r->Ok_0.0 == self.pos + 8 && r->Ok_0.1 == len_prefix(self@)
                && r->Ok_0.0 + r->Ok_0.1 <= self.bytes.len(),
    {
        proof {
            use_type_invariant(self);
        }
        let rem = self.remaining();
        let len = self.bytes.len();
        assert(self@.len() == len - self.pos);
        if rem < 8 {
            return Err(Error::IoFailure(IoCause::UnexpectedEof));
        }
        let n = get_u64(self.bytes.as_slice(), self.pos);
        assert(self.bytes@.subrange(self.pos as int, self.pos + 8) =~= self@.take(8));
        if n > usize::MAX as u64 {
            return Err(Error::LengthOverflow);
        }
        let n = n as usize;
        if n > rem - 8 {
            return Err(Error::IoFailure(IoCause::UnexpectedEof));
        }
        Ok((self.pos + 8, n))
    }

    /// Text: its UTF-8 length, then that many bytes, which must be valid UTF-8.
    /// Where the input runs out nothing is consumed; bytes found invalid are.
    pub fn read_string(&mut self) -> (r: Result<String>)
        ensures
            old(self)@.len() < 8 ==> r == truncated::<String>() && final(self)@ == old(self)@,
            old(self)@.len() >= 8 && len_prefix(old(self)@) > usize::MAX ==> r == Err::<String, Error>(
                Error::LengthOverflow,
            ) && final(self)@ == old(self)@.skip(8),
            old(self)@.len() >= 8 && len_prefix(old(self)@) <= usize::MAX && len_prefix(old(self)@)
                > old(self)@.len() - 8 ==> r == truncated::<String>() && final(self)@ == old(self)@,
            old(self)@.len() >= 8 && len_prefix(old(self)@) <= old(self)@.len() - 8 && !valid_utf8(
                old(self)@.subrange(8, 8 + len_prefix(old(self)@)),
            ) ==> r == Err::<String, Error>(Error::InvalidUtf8) && final(self)@ == old(self)@.skip(
                8 + len_prefix(old(self)@),
            ),
            old(self)@.len() >= 8 && len_prefix(old(self)@) <= old(self)@.len() - 8 && valid_utf8(
                old(self)@.subrange(8, 8 + len_prefix(old(self)@)),
            ) ==> r is Ok && encode_utf8(r->Ok_0@) == old(self)@.subrange(8, 8 + len_prefix(old(self)@))
                && final(self)@ == old(self)@.skip(8 + len_prefix(old(self)@)),
    {
        proof {
            use_type_invariant(&*self);
        }
        let (start, n) = match self.peek_frame() {
            Ok(f) => f,
            Err(Error::LengthOverflow) => {
                self.advance(8);
                return Err(Error::LengthOverflow);
            },
            Err(e) => return Err(e),
        };
        let v = slice_to_vec(slice_subrange(self.bytes.as_slice(), start, start + n));
        assert(v@ =~= old(self)@.subrange(8, 8 + n));
        match string_from_utf8(v) {
            Some(s) => {
                self.advance(8 + n);
                Ok(s)
            },
            None => {
                self.advance(8 + n);
                Err(Error::InvalidUtf8)
            },
        }
    }

    /// A character: the UTF-8 sequence whose length its leading byte announces.
    /// Where the input runs out nothing is consumed; bytes found invalid are (the
    /// leading byte alone where it starts no sequence).
    pub fn deserialize_char(&mut self) -> (r: Result<char>)
        ensures
            old(self)@.len() < 1 ==> r == truncated::<char>() && final(self)@ == old(self)@,
            old(self)@.len() >= 1 && char_width(old(self)@[0]) == 0 ==> r == Err::<char, Error>(
                Error::InvalidCharWidth,
            ) && final(self)@ == old(self)@.skip(1),
            old(self)@.len() >= 1 && char_width(old(self)@[0]) != 0 && old(self)@.len() < char_width(
                old(self)@[0],
            ) ==> r == truncated::<char>() && final(self)@ == old(self)@,
            old(self)@.len() >= 1 && char_width(old(self)@[0]) != 0 && old(self)@.len() >= char_width(
                old(self)@[0],
            ) && !valid_utf8(old(self)@.take(char_width(old(self)@[0]) as int)) ==> r == Err::<
                char,
                Error,
            >(Error::InvalidUtf8) && final(self)@ == old(self)@.skip(char_width(old(self)@[0]) as int),
            old(self)@.len() >= 1 && char_width(old(self)@[0]) != 0 && old(self)@.len() >= char_width(
                old(self)@[0],
            ) && valid_utf8(old(self)@.take(char_width(old(self)@[0]) as int)) ==> r is Ok
                && encode_utf8(seq![r->Ok_0]) == old(self)@.take(char_width(old(self)@[0]) as int)
                && final(self)@ == old(self)@.skip(char_width(old(self)@[0]) as int),
    {
        proof {
            use_type_invariant(&*self);
        }
        let rem = self.remaining();
        let len = self.bytes.len();
        assert(self@.len() == len - self.pos);
        if rem < 1 {
            return Err(Error::IoFailure(IoCause::UnexpectedEof));
        }
        let w = utf8_char_width(self.bytes[self.pos]);
        assert(self.bytes@[self.pos as int] == self@[0]);
        if w == 0 {
            self.advance(1);
            return Err(Error::InvalidCharWidth);
        }
        if rem < w {
            return Err(Error::IoFailure(IoCause::UnexpectedEof));
        }
        let v = slice_to_vec(slice_subrange(self.bytes.as_slice(), self.pos, self.pos + w));
        assert(v@ =~= old(self)@.take(w as int));
        match string_from_utf8(v) {
            None => {
                self.advance(w);
                Err(Error::InvalidUtf8)
            },
            Some(s) => {
                let ghost chars = s@;
                assert(chars.len() > 0) by {
                    if chars.len() == 0 {
                        assert(encode_utf8(chars) =~= Seq::<u8>::empty());
                    }
                };
                let c = s.as_str().get_char(0);
                proof {
                    lemma_char_width_of_encoding(c);
                    let head = encode_scalar(c as u32);
                    let tail = encode_utf8(chars.drop_first());
                    assert(encode_utf8(chars) == head + tail);
                    assert(v@[0] == head[0]);
                    if chars.drop_first().len() > 0 {
                        lemma_char_width_of_encoding(chars.drop_first()[0]);
                        assert(tail == encode_scalar(chars.drop_first()[0] as u32) + encode_utf8(
                            chars.drop_first().drop_first(),
                        ));
                        assert(false);
                    }
                    assert(tail =~= Seq::<u8>::empty());
                    assert(encode_utf8(chars) =~= head);
                }
                self.advance(w);
                Ok(c)
            },
        }
    }
}

} // verus!
